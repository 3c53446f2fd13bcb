//! What names, references and `HEAD` stand for.

use vstd::prelude::*;
use vstd::utf8::encode_utf8;
use vstd::utf8::is_ascii_chars_encode_utf8;

use crate::cli::working_header;
use crate::cli::Working;
use crate::commands::laws::filter_keeps_order;
use crate::commands::laws::listable;
use crate::commands::snaps::head_snapshot;
use crate::commands::snaps::init_refusal;
use crate::commands::upkeep_laws::every_snapshot_is_listed;
use crate::commands::upkeep_laws::is_snapshot;
use crate::error::ErrorView;
use crate::files::lists;
use crate::files::lists_unique;
use crate::files::names_of;
use crate::manifest::is_hash;
use crate::paths::path_key;
use crate::paths::steps;
use crate::store::all_name_chars;
use crate::store::branch_head_of;
use crate::store::branch_place;
use crate::store::branch_refusal;
use crate::store::fresh_store;
use crate::store::head_in;
use crate::store::head_of;
use crate::store::is_name_char;
use crate::store::is_snapshot_name;
use crate::store::marker_refusal;
use crate::store::matching;
use crate::store::name_refusal;
use crate::store::object_place;
use crate::store::ref_of;
use crate::store::resolved;
use crate::store::snap_place;
use crate::store::snapshot_list;
use crate::store::with_head;
use crate::store::HeadView;
use crate::store::StoreView;
use crate::store_laws::head_read_after_write;
use crate::store_laws::hex_takes_its_length;
use crate::text::all_hex;
use crate::text::as_text;
use crate::text::fitting_ascii;
use crate::text::index_of;
use crate::text::index_of_facts;
use crate::text::index_of_is;
use crate::text::is_hex;
use crate::text::is_space;
use crate::text::starts;

verus! {

// ---------------------------------------------------------------------------------------
// Names
// ---------------------------------------------------------------------------------------
/// May `c` stand in a branch name?
pub open spec fn may_stand(c: char) -> bool {
    'a' <= c <= 'z' || 'A' <= c <= 'Z' || '0' <= c <= '9' || c == '.' || c == '_' || c == '-' || c
        == '/'
}

/// A branch name takes 1 to 100 bytes, of letters, digits and `._-/`. It does not start with a
/// dash, a dot or a slash, does not end with a slash, has no two dots in a row, and is not 64
/// hexadecimal digits. Every such text is one.
pub proof fn branch_names_are_exactly_these(name: Seq<char>)
    ensures
        name_refusal(name) is None <==> {
            &&& name.len() > 0
            &&& encode_utf8(name).len() <= 100
            &&& forall|i: int| 0 <= i < name.len() ==> may_stand(#[trigger] name[i])
            &&& name[0] != '-' && name[0] != '.' && name[0] != '/'
            &&& name[name.len() - 1] != '/'
            &&& forall|i: int|
                0 <= i < name.len() - 1 && #[trigger] name[i] == '.' ==> name[i + 1] != '.'
            &&& !(encode_utf8(name).len() == 64 && all_hex(name))
        },
{
    if name_refusal(name) is None {
        assert(name.last() == name[name.len() - 1]);
        assert forall|i: int| 0 <= i < name.len() implies may_stand(#[trigger] name[i]) by {
            assert(is_name_char(name[i]));
        }
    }
    if name.len() > 0 && forall|i: int| 0 <= i < name.len() ==> may_stand(#[trigger] name[i]) {
        assert(all_name_chars(name)) by {
            assert forall|i: int| 0 <= i < name.len() implies is_name_char(
                #[trigger] name[i],
            ) by {
                assert(may_stand(name[i]));
            }
        }
    }
}

proof fn steps_of_joined(a: Seq<char>, b: Seq<char>)
    ensures
        steps(a.push('/') + b) == steps(a) + steps(b),
    decreases a.len(),
{
    let all = a.push('/') + b;
    index_of_facts(a, '/', 0);
    let n = index_of(a, '/', 0);
    if n < a.len() {
        let first = a.take(n as int);
        let rest = a.skip(n as int + 1);
        steps_of_joined(rest, b);
        assert forall|i: int| 0 <= i < n implies all[i] != '/' by {
            assert(all[i] == a[i]);
        }
        index_of_is(all, '/', 0, n);
        assert(all.take(n as int) =~= first);
        assert(all.skip(n as int + 1) =~= rest.push('/') + b);
        assert(steps(all) =~= steps(a) + steps(b));
    } else {
        assert forall|i: int| 0 <= i < a.len() implies all[i] != '/' by {
            assert(all[i] == a[i]);
        }
        index_of_is(all, '/', 0, a.len());
        assert(all.take(a.len() as int) =~= a);
        assert(all.skip(a.len() as int + 1) =~= b);
    }
}

/// A second slash, and a dot between two slashes, play no part in where a path leads.
pub proof fn doubled_slashes_and_dots_play_no_part(a: Seq<char>, b: Seq<char>)
    ensures
        path_key(a + "//"@ + b) == path_key(a + "/"@ + b),
        path_key(a + "/./"@ + b) == path_key(a + "/"@ + b),
{
    reveal_strlit("/");
    reveal_strlit("//");
    reveal_strlit("/./");
    reveal_strlit(".");
    let none = Seq::<char>::empty();
    let dot = seq!['.'];
    assert(a + "/"@ + b =~= a.push('/') + b);
    assert(a + "//"@ + b =~= a.push('/') + (none.push('/') + b));
    assert(a + "/./"@ + b =~= a.push('/') + (dot.push('/') + b));
    steps_of_joined(a, b);
    steps_of_joined(none, b);
    steps_of_joined(dot, b);
    steps_of_joined(a, none.push('/') + b);
    steps_of_joined(a, dot.push('/') + b);
    assert(dot =~= "."@);
    index_of_is(dot, '/', 0, 1);
    assert(steps(dot) =~= Seq::empty());
    assert(steps(none) =~= Seq::empty());
    assert(steps(none) + steps(b) =~= steps(b));
    assert(steps(dot) + steps(b) =~= steps(b));
}

/// A branch cannot lie below another one, nor at a place below which another one lies.
pub proof fn branches_do_not_nest(s: StoreView, name: Seq<char>, other: Seq<char>)
    requires
        s.refs.contains_key(other),
        starts(path_key(name), other.push('/')) || starts(other, path_key(name).push('/')),
    ensures
        branch_refusal(s, name) is Some,
        !(branch_head_of(s, name) matches Ok(Some(_))),
{
}

/// Of the characters of ASCII, the blank and those from the tab to the carriage return are space,
/// and no other.
pub proof fn space_in_ascii(c: char)
    requires
        c < '\u{80}',
    ensures
        is_space(c) <==> c == ' ' || '\t' <= c <= '\r',
{
}

// ---------------------------------------------------------------------------------------
// HEAD
// ---------------------------------------------------------------------------------------
/// `HEAD` says `ref: ` and a branch, or `snap: ` and an id; what says neither is refused.
pub proof fn head_says_what_it_points_to(text: Seq<char>, x: Seq<char>)
    ensures
        head_in(text) == Ok::<HeadView, ErrorView>(HeadView::Branch(x)) <==> text == "ref: "@ + x,
        head_in(text) == Ok::<HeadView, ErrorView>(HeadView::Detached(x)) <==> text == "snap: "@
            + x,
        head_in(text) is Err ==> text != "ref: "@ + x && text != "snap: "@ + x,
{
    reveal_strlit("ref: ");
    reveal_strlit("snap: ");
    let branch = "ref: "@ + x;
    let snap = "snap: "@ + x;
    assert(branch.take(5) =~= "ref: "@ && branch.skip(5) =~= x);
    assert(snap.take(6) =~= "snap: "@ && snap.skip(6) =~= x);
    assert(snap[0] == 's' && branch[0] == 'r');
    assert(snap.take(5)[0] == 's');
    if starts(text, "ref: "@) {
        assert(text =~= "ref: "@ + text.skip(5));
        assert(text[0] == text.take(5)[0]);
    }
    if starts(text, "snap: "@) {
        assert(text =~= "snap: "@ + text.skip(6));
    }
}

/// A fresh store is on the branch `main`, which has no snapshot yet; it holds nothing.
pub proof fn fresh_store_is_on_main(dir: Seq<char>, name: Seq<char>)
    ensures
        head_of(fresh_store(dir)) == Ok::<HeadView, ErrorView>(HeadView::Branch("main"@)),
        ref_of(fresh_store(dir), name) == Ok::<Option<Seq<char>>, ErrorView>(None),
        head_snapshot(fresh_store(dir)) == Ok::<Option<Seq<char>>, ErrorView>(None),
        forall|k: Seq<char>| !#[trigger] fresh_store(dir).objects.contains_key(k),
        forall|k: Seq<char>| !#[trigger] fresh_store(dir).snaps.contains_key(k),
        forall|k: Seq<char>| !#[trigger] fresh_store(dir).refs.contains_key(k),
{
    reveal_strlit("main");
    let s = fresh_store(dir);
    let main = HeadView::Branch("main"@);
    is_ascii_chars_encode_utf8("main"@);
    head_read_after_write(s, main);
    assert(with_head(s, main).head == s.head);
    branch_names_are_exactly_these("main"@);
}

/// A store is made exactly where the file is a database and there is no store yet.
pub proof fn store_is_made_once(w: Working, dir: Seq<char>, exists: bool)
    ensures
        init_refusal(w, dir, exists) is None <==> working_header(w) is Ok && !exists,
{
}

/// A store is opened exactly where its marker says `litegraft store 1`.
pub proof fn store_is_opened_by_its_marker(dir: Seq<char>, marker: Option<Seq<u8>>)
    ensures
        marker_refusal(dir, marker) is None <==> (marker matches Some(bytes) && as_text(bytes)
            == Some("litegraft store 1\n"@)),
{
}

/// An object lies below `objects`, in the directory that its first two digits name, under the
/// others; a manifest lies below `snaps` and a branch below `refs/heads`, under their names.
pub proof fn files_lie_where_they_should(dir: Seq<char>, hash: Seq<char>, name: Seq<char>)
    requires
        is_hash(hash),
    ensures
        object_place(dir, hash) == Some(
            dir + "/objects/"@ + hash.take(2) + "/"@ + hash.skip(2),
        ),
        snap_place(dir, hash) == dir + "/snaps/"@ + hash,
        branch_place(dir, name) == dir + "/refs/heads/"@ + name,
{
    assert forall|i: int| 0 <= i < hash.len() implies (#[trigger] hash[i] as u32) < 0x80 by {
        assert(is_hex(hash[i]));
    }
    fitting_ascii(hash, 2);
    assert(all_hex(hash.take(2))) by {
        assert forall|i: int| 0 <= i < 2 implies is_hex(#[trigger] hash.take(2)[i]) by {
            assert(is_hex(hash[i]));
        }
    }
    hex_takes_its_length(hash.take(2));
}

// ---------------------------------------------------------------------------------------
// References
// ---------------------------------------------------------------------------------------
/// Hexadecimal digits that are no branch, four bytes at least, stand for the only snapshot whose
/// id starts with them; where there is no such snapshot, or more than one, they stand for none.
pub proof fn prefix_stands_for_the_only_match(s: StoreView, name: Seq<char>, id: Seq<char>)
    requires
        listable(s.snaps),
        all_hex(name),
        4 <= encode_utf8(name).len() < 64,
        name_refusal(name) is None,
        ref_of(s, name) == Ok::<Option<Seq<char>>, ErrorView>(None),
    ensures
        resolved(s, name) == Ok::<Seq<char>, ErrorView>(id) <==> is_snapshot(s, id) && starts(
            id,
            name,
        ) && forall|other: Seq<char>| #[trigger]
            is_snapshot(s, other) && starts(other, name) ==> other == id,
{
    every_snapshot_is_listed(s);
    let ids = snapshot_list(s);
    let pred = |x: Seq<char>| starts(x, name);
    let found = matching(ids, name);
    let names = choose|names: Seq<Seq<char>>| lists(names, s.snaps);
    lists_unique(names, s.snaps);
    filter_keeps_order(names_of(s.snaps), is_snapshot_name());
    filter_keeps_order(ids, pred);
    assert(found == ids.filter(pred));
    if found.len() == 1 {
        assert(found.contains(found[0]));
        assert(is_snapshot(s, found[0]));
        assert forall|other: Seq<char>| #[trigger]
            is_snapshot(s, other) && starts(other, name) implies other == found[0] by {
            assert(ids.contains(other));
            assert(found.contains(other));
        }
    }
    if is_snapshot(s, id) && starts(id, name) && forall|other: Seq<char>| #[trigger]
        is_snapshot(s, other) && starts(other, name) ==> other == id {
        assert(ids.contains(id));
        assert(found.contains(id));
        if found.len() > 1 {
            assert(found.contains(found[0]) && found.contains(found[1]));
            assert(is_snapshot(s, found[0]) && is_snapshot(s, found[1]));
            assert(found[0] != found[1]);
        }
    }
}

} // verus!
