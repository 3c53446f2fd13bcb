//! What a store gives back of what was written to it.

use vstd::prelude::*;
use vstd::utf8::encode_utf8;
use vstd::utf8::encode_utf8_decode_utf8;
use vstd::utf8::encode_utf8_valid_utf8;
use vstd::utf8::is_ascii_chars;
use vstd::utf8::is_ascii_chars_encode_utf8;

use crate::error::ErrorView;
use crate::files::added_names;
use crate::files::changed_names;
use crate::files::lists;
use crate::files::names_of;
use crate::files::FileMap;
use crate::manifest::is_hash;
use crate::manifest::manifest_text;
use crate::manifest::ManifestView;
use crate::paths::is_below_file;
use crate::paths::keys_are_names;
use crate::paths::making_a_directory_keeps_places;
use crate::paths::path_key;
use crate::paths::place_of;
use crate::paths::plain_name;
use crate::paths::writing_keeps_places;
use crate::paths::Place;
use crate::roundtrip::as_read;
use crate::roundtrip::manifest_round_trip;
use crate::roundtrip::writable;
use crate::sha256::hex_sha256;
use crate::snapshot_laws::ids_are_hashes;
use crate::store::branch_head_of;
use crate::store::branch_list;
use crate::store::branch_refusal;
use crate::store::branches_from;
use crate::store::byte_len;
use crate::store::directory_refusal;
use crate::store::has_branch;
use crate::store::has_sound_object;
use crate::store::hash_is_its_path;
use crate::store::head_of;
use crate::store::head_text;
use crate::store::manifest_of;
use crate::store::matching;
use crate::store::name_refusal;
use crate::store::object_of;
use crate::store::resolved;
use crate::store::snapshot_list;
use crate::store::with_branch;
use crate::store::with_head;
use crate::store::with_manifest;
use crate::store::with_object;
use crate::store::without_branch;
use crate::store::HeadView;
use crate::store::StoreView;
use crate::text::after_prefix;
use crate::text::all_hex;
use crate::text::as_text;
use crate::text::is_hex;
use crate::text::is_space;
use crate::text::starts;
use crate::text::trimmed;

verus! {

// ---------------------------------------------------------------------------------------
// Objects
// ---------------------------------------------------------------------------------------
/// What is written under its hash is read back, unless an object of that hash is there
/// already, which is kept as it is; no other object is touched.
pub proof fn object_read_after_write(
    s: StoreView,
    hash: Seq<char>,
    bytes: Seq<u8>,
    other: Seq<char>,
)
    ensures
        !has_sound_object(s, hash) ==> object_of(with_object(s, hash, bytes), hash) == Ok::<
            Seq<u8>,
            ErrorView,
        >(bytes),
        has_sound_object(s, hash) ==> with_object(s, hash, bytes) == s,
        hex_sha256(bytes) == hash ==> has_sound_object(with_object(s, hash, bytes), hash),
        other != hash ==> object_of(with_object(s, hash, bytes), other) == object_of(s, other),
{
}

/// Writing an object again changes nothing, whatever is written the second time.
pub proof fn object_write_is_idempotent(
    s: StoreView,
    hash: Seq<char>,
    bytes: Seq<u8>,
    again: Seq<u8>,
)
    requires
        hex_sha256(bytes) == hash,
    ensures
        with_object(with_object(s, hash, bytes), hash, again) == with_object(s, hash, bytes),
{
}

// ---------------------------------------------------------------------------------------
// Text files
// ---------------------------------------------------------------------------------------
/// Text that is written reads back as it was.
pub proof fn text_round_trip(t: Seq<char>)
    ensures
        as_text(encode_utf8(t)) == Some(t),
{
    encode_utf8_valid_utf8(t);
    encode_utf8_decode_utf8(t);
}

/// A manifest that is written is read back as it was, but for a carriage return at the end of
/// its message and a dash for a parent.
pub proof fn manifest_read_after_write(s: StoreView, m: ManifestView)
    requires
        writable(m),
    ensures
        manifest_of(with_manifest(s, m), m.id) == Ok::<ManifestView, ErrorView>(as_read(m)),
        (m.message.len() > 0 ==> m.message.last() != '\r') && m.parent != Some("-"@) ==> as_read(m)
            == m,
{
    text_round_trip(manifest_text(m));
    manifest_round_trip(m);
    ids_are_hashes(m.page_size, m.page_hashes);
    hash_is_its_path(with_manifest(s, m), m.id);
}

/// `t` is a text that keeps its end when it is written on a line of its own.
pub open spec fn solid(t: Seq<char>) -> bool {
    t.len() > 0 && !is_space(t.last())
}

proof fn trimmed_line(t: Seq<char>)
    requires
        solid(t),
    ensures
        trimmed(t + "\n"@) == t,
{
    reveal_strlit("\n");
    let line = t + "\n"@;
    assert(line.last() == '\n');
    assert(line.drop_last() =~= t);
    assert(trimmed(line) == trimmed(t));
}

proof fn prefix_of(p: Seq<char>, t: Seq<char>)
    ensures
        after_prefix(p + t, p) == Some(t),
{
    assert((p + t).take(p.len() as int) =~= p);
    assert((p + t).skip(p.len() as int) =~= t);
}

/// HEAD points where it was pointed last.
pub proof fn head_read_after_write(s: StoreView, head: HeadView)
    requires
        match head {
            HeadView::Branch(b) => solid(b),
            HeadView::Detached(id) => solid(id),
        },
    ensures
        head_of(with_head(s, head)) == Ok::<HeadView, ErrorView>(head),
{
    text_round_trip(head_text(head));
    match head {
        HeadView::Branch(b) => {
            assert("ref: "@ + b + "\n"@ =~= ("ref: "@ + b) + "\n"@);
            assert(("ref: "@ + b).last() == b.last());
            trimmed_line("ref: "@ + b);
            prefix_of("ref: "@, b);
        },
        HeadView::Detached(id) => {
            assert(("snap: "@ + id).last() == id.last());
            trimmed_line("snap: "@ + id);
            prefix_of("snap: "@, id);
            reveal_strlit("ref: ");
            reveal_strlit("snap: ");
            let t = "snap: "@ + id;
            assert(t[0] == 's');
            if starts(t, "ref: "@) {
                assert(t.take(5)[0] == 'r');
            }
        },
    }
}

/// A branch points to the snapshot that it was pointed to last, and resolves to it; no other
/// branch is touched. (Two names of one file are one branch.)
pub proof fn branch_read_after_write(s: StoreView, name: Seq<char>, id: Seq<char>, other: Seq<char>)
    requires
        branch_refusal(s, name) is None,
        solid(id),
    ensures
        branch_head_of(with_branch(s, name, id), name) == Ok::<Option<Seq<char>>, ErrorView>(
            Some(id),
        ),
        has_branch(with_branch(s, name, id), name),
        resolved(with_branch(s, name, id), name) == Ok::<Seq<char>, ErrorView>(id),
        place_of(s.refs, s.dirs, other) == Place::File && path_key(other) != path_key(name)
            ==> branch_head_of(with_branch(s, name, id), other) == branch_head_of(s, other),
        branch_refusal(with_branch(s, name, id), name) is None,
{
    writing_keeps_places(s.refs, s.dirs, name, encode_utf8(id + "\n"@), other);
    text_round_trip(id + "\n"@);
    trimmed_line(id);
}

/// A branch that cannot be written leaves at most a directory behind; every branch keeps its
/// head.
pub proof fn refused_branch_keeps_heads(s: StoreView, name: Seq<char>, other: Seq<char>)
    requires
        branch_refusal(s, name) is Some,
    ensures
        without_branch(s, name) == (StoreView { dirs: without_branch(s, name).dirs, ..s }),
        place_of(s.refs, s.dirs, other) == Place::File ==> branch_head_of(
            without_branch(s, name),
            other,
        ) == branch_head_of(s, other),
        branch_list(without_branch(s, name)) == branch_list(s),
{
    let after = without_branch(s, name);
    if after != s && place_of(s.refs, s.dirs, other) == Place::File {
        making_a_directory_keeps_places(s.refs, s.dirs, name, other);
    }
    same_heads(s, after, names_of(s.refs));
}

proof fn same_heads(s: StoreView, t: StoreView, names: Seq<Seq<char>>)
    requires
        s.refs == t.refs,
    ensures
        branches_from(s, names) == branches_from(t, names),
    decreases names.len(),
{
    if names.len() > 0 {
        same_heads(s, t, names.drop_last());
    }
}

/// An empty directory is a branch that exists and has no head.
pub proof fn empty_directory_is_taken(s: StoreView, name: Seq<char>)
    requires
        name_refusal(name) is None,
        s.dirs.contains(path_key(name)),
        !is_below_file(s.refs, path_key(name)),
    ensures
        has_branch(s, name),
        branch_head_of(s, name) == Err::<Option<Seq<char>>, ErrorView>(directory_refusal(name)),
        branch_refusal(s, name) == Some(directory_refusal(name)),
{
}

proof fn listed_with_heads(s: StoreView, names: Seq<Seq<char>>, i: int)
    requires
        0 <= i < names.len(),
    ensures
        branches_from(s, names) matches Ok(list) ==> list.len() == names.len() && as_text(
            s.refs[names[i]],
        ) is Some && list[i] == (names[i], trimmed(as_text(s.refs[names[i]]).unwrap())),
    decreases names.len(),
{
    let before = names.drop_last();
    if i < before.len() {
        listed_with_heads(s, before, i);
    } else if before.len() > 0 {
        listed_with_heads(s, before, 0);
    }
}

/// A branch is listed with the snapshot that it was pointed to last, under a name that leads
/// to it.
pub proof fn branch_is_listed(s: StoreView, name: Seq<char>, id: Seq<char>)
    requires
        branch_refusal(s, name) is None,
        solid(id),
        lists(names_of(with_branch(s, name, id).refs), with_branch(s, name, id).refs),
    ensures
        branch_list(with_branch(s, name, id)) matches Ok(list) ==> list.contains(
            (path_key(name), id),
        ),
        path_key(path_key(name)) == path_key(name),
{
    let after = with_branch(s, name, id);
    let names = names_of(after.refs);
    text_round_trip(id + "\n"@);
    trimmed_line(id);
    keys_are_names(name);
    assert(names.contains(path_key(name)));
    let i = names.index_of(path_key(name));
    listed_with_heads(after, names, i);
    if let Ok(list) = branch_list(after) {
        assert(list[i] == (path_key(name), id));
    }
}

// ---------------------------------------------------------------------------------------
// References
// ---------------------------------------------------------------------------------------
/// Hexadecimal digits take one byte each.
pub proof fn hex_takes_its_length(s: Seq<char>)
    requires
        all_hex(s),
    ensures
        byte_len(s) == s.len(),
{
    assert(is_ascii_chars(s)) by {
        assert forall|i: int| 0 <= i < s.len() implies (0 <= #[trigger] (s[i] as nat) < 128) by {
            assert(is_hex(s[i]));
        }
    }
    is_ascii_chars_encode_utf8(s);
}

/// No branch has the name of a snapshot.
pub proof fn branch_never_shadows_id(name: Seq<char>)
    requires
        is_hash(name),
    ensures
        name_refusal(name) is Some,
{
    hex_takes_its_length(name);
}

/// The id of a snapshot resolves to that snapshot, whatever branches there are.
pub proof fn id_resolves_to_itself(s: StoreView, id: Seq<char>)
    requires
        is_hash(id),
        s.snaps.contains_key(id),
    ensures
        resolved(s, id) == Ok::<Seq<char>, ErrorView>(id),
{
    branch_never_shadows_id(id);
    hex_takes_its_length(id);
    hash_is_its_path(s, id);
}

/// A branch name takes precedence over a prefix of an id.
pub proof fn branch_comes_first(s: StoreView, name: Seq<char>, id: Seq<char>)
    requires
        branch_head_of(s, name) == Ok::<Option<Seq<char>>, ErrorView>(Some(id)),
    ensures
        resolved(s, name) == Ok::<Seq<char>, ErrorView>(id),
{
}

/// A prefix of four digits or more resolves exactly where one snapshot has it: with none it
/// is unknown, with several it is ambiguous. (A prefix that is the name of a branch is that
/// branch, and one of 64 digits is an id.)
pub proof fn prefix_resolves_if_unique(s: StoreView, prefix: Seq<char>)
    requires
        all_hex(prefix),
        4 <= prefix.len() < 64,
        !has_branch(s, prefix),
    ensures
        resolved(s, prefix) is Ok <==> matching(snapshot_list(s), prefix).len() == 1,
        resolved(s, prefix) matches Ok(id) ==> starts(id, prefix) && snapshot_list(s).contains(id),
{
    hex_takes_its_length(prefix);
    hex_names_are_plain(s, prefix);
    let found = matching(snapshot_list(s), prefix);
    let pred = |id: Seq<char>| starts(id, prefix);
    if found.len() == 1 {
        snapshot_list(s).lemma_filter_pred(pred, 0);
        assert(found.contains(found[0]));
        snapshot_list(s).lemma_filter_contains_rev(pred, found[0]);
    }
}

/// A prefix of fewer than four digits resolves to nothing but a branch.
pub proof fn short_prefix_never_resolves(s: StoreView, prefix: Seq<char>)
    requires
        all_hex(prefix),
        prefix.len() < 4,
        !has_branch(s, prefix),
    ensures
        resolved(s, prefix) is Err,
{
    hex_takes_its_length(prefix);
}

proof fn hex_names_are_plain(s: StoreView, name: Seq<char>)
    requires
        all_hex(name),
        name.len() > 0,
    ensures
        place_of(s.refs, s.dirs, name) != Place::Blocked,
{
    reveal_strlit(".");
    assert(is_hex(name[0]));
    if name.contains('/') {
        let i = choose|i: int| 0 <= i < name.len() && name[i] == '/';
        assert(is_hex(name[i]));
    }
    plain_name(s.refs, s.dirs, name);
}

// ---------------------------------------------------------------------------------------
// Carrying changes over
// ---------------------------------------------------------------------------------------
/// Writing the changed files and removing those that are gone turns the old files into the
/// new ones.
pub proof fn changes_carry_over(before: FileMap, after: FileMap, name: Seq<char>)
    requires
        lists(names_of(before), before),
        lists(names_of(after), after),
    ensures
        after.contains_key(name) <==> changed_names(before, after).contains(name) || (
        before.contains_key(name) && !added_names(after, before).contains(name)),
        after.contains_key(name) && !changed_names(before, after).contains(name)
            ==> before.contains_key(name) && before[name] == after[name],
{
    let changed = |k: Seq<char>| !before.contains_key(k) || before[k] != after[k];
    let gone = |k: Seq<char>| !after.contains_key(k);
    filter_members(names_of(after), changed, name);
    filter_members(names_of(before), gone, name);
}

proof fn filter_members(s: Seq<Seq<char>>, pred: spec_fn(Seq<char>) -> bool, k: Seq<char>)
    ensures
        s.filter(pred).contains(k) <==> s.contains(k) && pred(k),
{
    let f = s.filter(pred);
    if f.contains(k) {
        s.lemma_filter_contains_rev(pred, k);
        let i = choose|i: int| 0 <= i < f.len() && f[i] == k;
        s.lemma_filter_pred(pred, i);
    }
    if s.contains(k) && pred(k) {
        let i = choose|i: int| 0 <= i < s.len() && s[i] == k;
        s.lemma_filter_contains(pred, i);
    }
}

} // verus!
