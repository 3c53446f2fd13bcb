//! What branching, checking out and asking for the status are for, said of a store and a
//! working file before and after.

use vstd::prelude::*;
use vstd::utf8::encode_utf8;

use crate::args::ArgsView;
use crate::cli::working_header;
use crate::cli::Working;
use crate::commands::branches::branch_line;
use crate::commands::branches::branch_output;
use crate::commands::branches::checkout_output;
use crate::commands::branches::status_of;
use crate::commands::branches::working_hashes;
use crate::commands::branches::StatusView;
use crate::commands::compare::diff_sides;
use crate::commands::compare::SideView;
use crate::commands::laws::follows_at;
use crate::commands::laws::joined_len;
use crate::commands::laws::joined_page;
use crate::commands::laws::log_follows_parents;
use crate::commands::snaps::cmd_snap_refusal;
use crate::commands::snaps::head_snapshot;
use crate::commands::snaps::history;
use crate::dbfile::file_page;
use crate::dbfile::open_file;
use crate::dbfile::DbHeader;
use crate::diff::deltas;
use crate::diff::diff_empty_iff_equal;
use crate::diff_laws::no_more_deltas_than_pages;
use crate::error::ErrorView;
use crate::manifest::id_of;
use crate::manifest::is_hash;
use crate::manifest::state_text;
use crate::manifest::ManifestView;
use crate::paths::path_key;
use crate::paths::place_of;
use crate::paths::writing_keeps_places;
use crate::paths::Place;
use crate::roundtrip::manifest_is_intact;
use crate::sha256::hex_sha256;
use crate::snapshot::joined;
use crate::snapshot::snap_target;
use crate::snapshot_laws::equal_ids_mean_equal_states;
use crate::snapshot_laws::hash_shape;
use crate::store::branch_head_of;
use crate::store::branch_list;
use crate::store::branch_refusal;
use crate::store::has_branch;
use crate::store::head_of;
use crate::store::is_name_char;
use crate::store::manifest_of;
use crate::store::name_refusal;
use crate::store::resolved;
use crate::store::snap_file;
use crate::store::with_head;
use crate::store::HeadView;
use crate::store::StoreView;
use crate::store_laws::head_read_after_write;
use crate::store_laws::solid;
use crate::store_laws::text_round_trip;
use crate::text::as_text;
use crate::text::ends;
use crate::text::is_space;
use crate::text::trimmed;

verus! {

// ---------------------------------------------------------------------------------------
// The state of a file
// ---------------------------------------------------------------------------------------
/// The hashes of the pages of a file that holds `bytes` and has the header `h`.
pub open spec fn page_hashes_of(bytes: Seq<u8>, h: DbHeader) -> Seq<Seq<char>> {
    Seq::new(
        h.page_count as nat,
        |i: int| hex_sha256(file_page(bytes, h.page_size as int, i + 1)),
    )
}

/// The id of the state of a file that holds `bytes` and has the header `h`.
pub open spec fn state_of(bytes: Seq<u8>, h: DbHeader) -> Seq<char> {
    id_of(h.page_size, page_hashes_of(bytes, h))
}

/// The bytes and the header of a working file that can be opened.
pub open spec fn opens_as(w: Working, bytes: Seq<u8>, h: DbHeader) -> bool {
    &&& w.content matches Ok(b) && b@ == bytes
    &&& open_file(w.path@, bytes) == Ok::<DbHeader, ErrorView>(h)
}

// ---------------------------------------------------------------------------------------
// Where HEAD stands
// ---------------------------------------------------------------------------------------
/// HEAD that was pointed to a snapshot stands for that snapshot.
pub proof fn detached_head_stands_for_its_snapshot(s: StoreView, id: Seq<char>)
    requires
        solid(id),
    ensures
        head_snapshot(with_head(s, HeadView::Detached(id))) == Ok::<Option<Seq<char>>, ErrorView>(
            Some(id),
        ),
{
    head_read_after_write(s, HeadView::Detached(id));
}

/// HEAD that was pointed to a branch stands for what that branch points to, and for nothing
/// while it points nowhere.
pub proof fn branch_head_stands_for_what_it_points_to(s: StoreView, name: Seq<char>)
    requires
        solid(name),
    ensures
        head_snapshot(with_head(s, HeadView::Branch(name))) == branch_head_of(s, name),
{
    head_read_after_write(s, HeadView::Branch(name));
}

/// The snapshot that HEAD stands for is where everything starts that is given no reference: it
/// is the newest of the log, the parent of the next snapshot, and the old side of a diff.
pub proof fn everything_starts_at_head(
    s: StoreView,
    id: Seq<char>,
    words: Seq<Seq<char>>,
    limit: Option<usize>,
)
    requires
        head_snapshot(s) == Ok::<Option<Seq<char>>, ErrorView>(Some(id)),
        words.len() <= 1,
    ensures
        diff_sides(s, words) == Ok::<(SideView, SideView), ErrorView>(
            (SideView::Snap(id), SideView::Working),
        ),
        snap_target(s) matches Ok(target) ==> target.1 == Some(id),
        history(s, limit) matches Ok(ms) ==> ms.len() == 0 && limit == Some(0usize) || ms.len() > 0
            && manifest_of(s, id) == Ok::<ManifestView, ErrorView>(ms[0]),
{
    log_follows_parents(s, Some(id), limit);
    if let Ok(ms) = history(s, limit) {
        if ms.len() > 0 {
            assert(follows_at(s, Some(id), ms, 0));
        }
    }
}

/// A diff that is given references compares what they stand for, the first as the old side and
/// the second as the new; `@` is the working file, and so is a new side that is not given.
pub proof fn diff_compares_what_it_is_given(
    s: StoreView,
    db: Seq<char>,
    a: Seq<char>,
    b: Seq<char>,
    x: Seq<char>,
    y: Seq<char>,
)
    requires
        a != "@"@,
        b != "@"@,
        resolved(s, a) == Ok::<Seq<char>, ErrorView>(x),
        resolved(s, b) == Ok::<Seq<char>, ErrorView>(y),
    ensures
        diff_sides(s, seq![db, a]) == Ok::<(SideView, SideView), ErrorView>(
            (SideView::Snap(x), SideView::Working),
        ),
        diff_sides(s, seq![db, a, b]) == Ok::<(SideView, SideView), ErrorView>(
            (SideView::Snap(x), SideView::Snap(y)),
        ),
        diff_sides(s, seq![db, a, "@"@]) == Ok::<(SideView, SideView), ErrorView>(
            (SideView::Snap(x), SideView::Working),
        ),
        diff_sides(s, seq![db, "@"@, b]) == Ok::<(SideView, SideView), ErrorView>(
            (SideView::Working, SideView::Snap(y)),
        ),
        diff_sides(s, seq![db, "@"@]) == Ok::<(SideView, SideView), ErrorView>(
            (SideView::Working, SideView::Working),
        ),
        diff_sides(s, seq![db, a, b, a]) is Err,
{
}

// ---------------------------------------------------------------------------------------
// branch
// ---------------------------------------------------------------------------------------
proof fn trimmed_is_trimmed(t: Seq<char>)
    ensures
        trimmed(trimmed(t)) == trimmed(t),
        trimmed(t).len() > 0 ==> !is_space(trimmed(t).last()),
    decreases t.len(),
{
    if t.len() > 0 && is_space(t.last()) {
        trimmed_is_trimmed(t.drop_last());
    }
}

proof fn trimmed_with_line_end(t: Seq<char>)
    ensures
        trimmed(t + "\n"@) == trimmed(t),
{
    reveal_strlit("\n");
    let line = t + "\n"@;
    assert(line.last() == '\n');
    assert(line.drop_last() =~= t);
}

/// A branch that was made points to the snapshot that was asked for: to the one that `--at`
/// stands for, or, without it, to the one that HEAD stands for, be it on a branch or detached.
/// (Space at the end of an id is not kept.)
pub proof fn branch_is_made_where_it_was_asked_for(s: StoreView, db: Seq<char>, a: ArgsView)
    requires
        a.positional.len() >= 2,
    ensures
        branch_output(s, db, a) matches Ok(r) ==> {
            let name = a.positional[1];
            &&& a.at matches Some(at) ==> (resolved(s, at) matches Ok(id) && branch_head_of(
                r.0,
                name,
            ) == Ok::<Option<Seq<char>>, ErrorView>(Some(trimmed(id))))
            &&& a.at is None ==> (head_snapshot(s) matches Ok(Some(id)) && branch_head_of(
                r.0,
                name,
            ) == Ok::<Option<Seq<char>>, ErrorView>(Some(trimmed(id))))
            &&& !has_branch(s, name) && has_branch(r.0, name)
            &&& head_of(r.0) == head_of(s)
        },
{
    if let Ok(r) = branch_output(s, db, a) {
        let name = a.positional[1];
        let id = match a.at {
            Some(at) => resolved(s, at)->Ok_0,
            None => head_snapshot(s)->Ok_0.unwrap(),
        };
        writing_keeps_places(
            s.refs,
            s.dirs,
            name,
            encode_utf8(id + "\n"@),
            name,
        );
        text_round_trip(id + "\n"@);
        trimmed_with_line_end(id);
    }
}

/// What a branch points to, and what HEAD is detached at, has no space at its end; so a branch
/// that is made at either points to exactly that.
pub proof fn heads_have_no_space_at_the_end(s: StoreView)
    ensures
        head_snapshot(s) matches Ok(Some(id)) ==> trimmed(id) == id,
{
    if let Ok(Some(id)) = head_snapshot(s) {
        if let Ok(HeadView::Branch(name)) = head_of(s) {
            trimmed_is_trimmed(as_text(s.refs[path_key(name)]).unwrap());
        } else {
            let t = trimmed(as_text(s.head.unwrap()).unwrap());
            trimmed_is_trimmed(as_text(s.head.unwrap()).unwrap());
            reveal_strlit("snap: ");
            assert(id == t.skip(6));
            if id.len() > 0 {
                assert(id.last() == t.last());
            }
        }
    }
}

/// A branch is made wherever it can be: its name is one, nothing lies at its place or in its way,
/// and what it is to point to can be told. Where HEAD points to a branch or is detached plays no
/// part.
pub proof fn branch_goes_through(s: StoreView, db: Seq<char>, a: ArgsView, name: Seq<char>)
    requires
        a.positional.len() >= 2,
        a.positional[1] == name,
        name_refusal(name) is None,
        place_of(s.refs, s.dirs, name) == Place::Nothing,
        !ends(name, "/."@),
        head_of(s) is Ok,
        match a.at {
            Some(at) => resolved(s, at) is Ok,
            None => head_snapshot(s) matches Ok(Some(_)),
        },
    ensures
        branch_output(s, db, a) is Ok,
{
}

/// Without a name, `branch` changes nothing and shows each branch on a line of its own, in order;
/// if HEAD is detached, a further line says so.
pub proof fn branches_are_shown_one_by_one(
    s: StoreView,
    db: Seq<char>,
    a: ArgsView,
    head: HeadView,
    branches: Seq<(Seq<char>, Seq<char>)>,
)
    requires
        a.positional.len() < 2,
        !a.json,
        head_of(s) == Ok::<HeadView, ErrorView>(head),
        branch_list(s) == Ok::<Seq<(Seq<char>, Seq<char>)>, ErrorView>(branches),
        branches.len() > 0,
    ensures
        branch_output(s, db, a) matches Ok(r) && {
            &&& r.0 == s
            &&& r.1.len() == branches.len() + (if head is Detached {
                1int
            } else {
                0int
            })
            &&& forall|i: int|
                0 <= i < branches.len() ==> #[trigger] r.1[i] == branch_line(head, branches[i])
        },
{
}

/// In the list of branches the current one is marked, and no other is.
pub proof fn current_branch_is_marked(head: HeadView, name: Seq<char>, id: Seq<char>)
    ensures
        branch_line(head, (name, id))[0] == (if head == HeadView::Branch(name) {
            '*'
        } else {
            ' '
        }),
{
    reveal_strlit("*");
    reveal_strlit(" ");
}

// ---------------------------------------------------------------------------------------
// checkout
// ---------------------------------------------------------------------------------------
/// A checkout without `--force` discards nothing: where it replaces a working file, the file
/// could be opened, and the store holds a snapshot of the state it was in. Where HEAD points
/// plays no part.
pub proof fn checkout_discards_nothing(s: StoreView, w: Working, a: ArgsView)
    requires
        checkout_output(s, w, a) is Ok,
        w.exists,
        !a.force,
    ensures
        exists|bytes: Seq<u8>, h: DbHeader| #[trigger]
            opens_as(w, bytes, h) && s.snaps.contains_key(state_of(bytes, h)),
{
    let h = working_header(w)->Ok_0;
    let bytes = w.content->Ok_0@;
    assert(opens_as(w, bytes, h));
    assert(working_hashes(w, h) =~= page_hashes_of(bytes, h));
}

/// A checkout replaces the working file by the snapshot that was asked for: as many pages as it
/// lists, each of them the object that is stored under its hash.
pub proof fn checkout_writes_the_snapshot(
    s: StoreView,
    w: Working,
    a: ArgsView,
    id: Seq<char>,
    m: ManifestView,
)
    requires
        a.positional.len() >= 2,
        resolved(s, a.positional[1]) == Ok::<Seq<char>, ErrorView>(id),
        manifest_of(s, id) == Ok::<ManifestView, ErrorView>(m),
    ensures
        checkout_output(s, w, a) matches Ok(r) ==> {
            &&& r.1.len() == m.page_size * m.page_hashes.len()
            &&& forall|i: int|
                0 <= i < m.page_hashes.len() ==> s.objects.contains_key(#[trigger] m.page_hashes[i])
                    && s.objects[m.page_hashes[i]] == file_page(r.1, m.page_size as int, i + 1)
        },
{
    if let Ok(r) = checkout_output(s, w, a) {
        joined_len(s, m.page_size, m.page_hashes);
        assert forall|i: int| 0 <= i < m.page_hashes.len() implies s.objects.contains_key(
            #[trigger] m.page_hashes[i],
        ) && s.objects[m.page_hashes[i]] == file_page(r.1, m.page_size as int, i + 1) by {
            joined_page(s, m.page_size, m.page_hashes, i);
        }
    }
}

proof fn joined_succeeds(s: StoreView, size: u32, hashes: Seq<Seq<char>>)
    requires
        forall|i: int|
            0 <= i < hashes.len() ==> s.objects.contains_key(#[trigger] hashes[i])
                && s.objects[hashes[i]].len() == size,
    ensures
        joined(s, size, hashes) is Ok,
    decreases hashes.len(),
{
    if hashes.len() > 0 {
        let rest = hashes.drop_last();
        assert forall|i: int| 0 <= i < rest.len() implies s.objects.contains_key(
            #[trigger] rest[i],
        ) && s.objects[rest[i]].len() == size by {
            assert(rest[i] == hashes[i]);
        }
        joined_succeeds(s, size, rest);
        assert(s.objects.contains_key(hashes[hashes.len() - 1]));
    }
}

/// Nothing is under way beside a working file: its journal, if there is one, is empty, and its
/// write-ahead log, if there is one, holds no more than its header or is allowed to.
pub open spec fn quiet(w: Working, allow_wal: bool) -> bool {
    &&& w.beside.journal_len matches Some(len) ==> len == 0
    &&& w.beside.wal_len matches Some(len) ==> len <= 32 || allow_wal
}

/// A checkout of a snapshot whose pages are all stored goes through where nothing is under way
/// and nothing would be lost: with `--force`, where there is no working file, or where a
/// snapshot of its state is stored.
pub proof fn checkout_goes_through(
    s: StoreView,
    w: Working,
    a: ArgsView,
    id: Seq<char>,
    m: ManifestView,
    bytes: Seq<u8>,
    h: DbHeader,
)
    requires
        a.positional.len() >= 2,
        resolved(s, a.positional[1]) == Ok::<Seq<char>, ErrorView>(id),
        manifest_of(s, id) == Ok::<ManifestView, ErrorView>(m),
        forall|i: int|
            0 <= i < m.page_hashes.len() ==> s.objects.contains_key(#[trigger] m.page_hashes[i])
                && s.objects[m.page_hashes[i]].len() == m.page_size,
        quiet(w, a.allow_wal),
        a.force || !w.exists || opens_as(w, bytes, h) && s.snaps.contains_key(state_of(bytes, h)),
    ensures
        checkout_output(s, w, a) is Ok,
{
    joined_succeeds(s, m.page_size, m.page_hashes);
    if opens_as(w, bytes, h) {
        assert(working_hashes(w, h) =~= page_hashes_of(bytes, h));
    }
}

proof fn names_are_solid(name: Seq<char>)
    requires
        name_refusal(name) is None,
    ensures
        solid(name),
{
    assert(is_name_char(name[name.len() - 1]));
}

/// After a checkout HEAD stands for the snapshot that was checked out: on the branch, where
/// the reference names one, and detached otherwise.
pub proof fn checkout_leads_head_to_the_snapshot(
    s: StoreView,
    w: Working,
    a: ArgsView,
    id: Seq<char>,
)
    requires
        a.positional.len() >= 2,
        resolved(s, a.positional[1]) == Ok::<Seq<char>, ErrorView>(id),
        solid(id),
    ensures
        checkout_output(s, w, a) matches Ok(r) ==> {
            let name = a.positional[1];
            &&& head_snapshot(r.0) == Ok::<Option<Seq<char>>, ErrorView>(Some(id))
            &&& branch_head_of(s, name) matches Ok(Some(_)) ==> head_of(r.0) == Ok::<
                HeadView,
                ErrorView,
            >(HeadView::Branch(name))
            &&& !(branch_head_of(s, name) matches Ok(Some(_))) ==> head_of(r.0) == Ok::<
                HeadView,
                ErrorView,
            >(HeadView::Detached(id))
        },
{
    if let Ok(r) = checkout_output(s, w, a) {
        let name = a.positional[1];
        head_read_after_write(s, HeadView::Detached(id));
        if has_branch(s, name) {
            names_are_solid(name);
            head_read_after_write(s, HeadView::Branch(name));
            assert(branch_head_of(r.0, name) == branch_head_of(s, name));
        }
    }
}

// ---------------------------------------------------------------------------------------
// snap
// ---------------------------------------------------------------------------------------
/// A snapshot can be taken of every database beside which nothing is under way, while HEAD is on
/// a branch that can be read and written; it cannot while HEAD is detached.
pub proof fn snap_goes_through(
    s: StoreView,
    w: Working,
    a: ArgsView,
    bytes: Seq<u8>,
    h: DbHeader,
    name: Seq<char>,
)
    requires
        opens_as(w, bytes, h),
        quiet(w, a.allow_wal),
    ensures
        head_of(s) == Ok::<HeadView, ErrorView>(HeadView::Branch(name)) && branch_head_of(
            s,
            name,
        ) is Ok && branch_refusal(s, name) is None ==> cmd_snap_refusal(s, w, a) is None
            && snap_target(s) == Ok::<(Seq<char>, Option<Seq<char>>), ErrorView>(
            (name, branch_head_of(s, name)->Ok_0),
        ),
        head_of(s) == Ok::<HeadView, ErrorView>(HeadView::Detached(name)) ==> cmd_snap_refusal(
            s,
            w,
            a,
        ) is Some,
{
}

// ---------------------------------------------------------------------------------------
// status
// ---------------------------------------------------------------------------------------
/// Where HEAD stands for a snapshot, the working file is dirty exactly where its state has
/// another id than that snapshot. The status names the snapshot and counts the pages.
pub proof fn dirty_iff_the_state_differs(
    s: StoreView,
    w: Working,
    allow_wal: bool,
    id: Seq<char>,
    v: StatusView,
)
    requires
        status_of(s, w, allow_wal) == Ok::<StatusView, ErrorView>(v),
        head_snapshot(s) == Ok::<Option<Seq<char>>, ErrorView>(Some(id)),
    ensures
        exists|bytes: Seq<u8>, h: DbHeader| #[trigger]
            opens_as(w, bytes, h) && {
                &&& v.dirty <==> state_of(bytes, h) != id
                &&& v.pages == h.page_count
                &&& v.page_size == h.page_size
            },
        v.head == Some(id),
        v.db == w.path@,
        manifest_of(s, id) matches Ok(m) && v.message == m.message,
        match head_of(s) {
            Ok(HeadView::Branch(name)) => v.branch == name,
            _ => v.branch == "(detached)"@,
        },
{
    let h = working_header(w)->Ok_0;
    let bytes = w.content->Ok_0@;
    assert(opens_as(w, bytes, h));
    assert(working_hashes(w, h) =~= page_hashes_of(bytes, h));
}

/// The status counts the pages that differ: those whose hash is another than that at the same
/// place of the head snapshot, and those that only one of the two has.
pub proof fn status_counts_what_differs(
    s: StoreView,
    w: Working,
    allow_wal: bool,
    id: Seq<char>,
    m: ManifestView,
    v: StatusView,
    bytes: Seq<u8>,
    h: DbHeader,
)
    requires
        status_of(s, w, allow_wal) == Ok::<StatusView, ErrorView>(v),
        head_snapshot(s) == Ok::<Option<Seq<char>>, ErrorView>(Some(id)),
        manifest_of(s, id) == Ok::<ManifestView, ErrorView>(m),
        opens_as(w, bytes, h),
        m.page_hashes.len() <= u32::MAX,
    ensures
        v.pages_changed == deltas(m.page_hashes, page_hashes_of(bytes, h)).len(),
        v.pages_changed == 0 <==> m.page_hashes == page_hashes_of(bytes, h),
{
    assert(working_hashes(w, h) =~= page_hashes_of(bytes, h));
    diff_empty_iff_equal(m.page_hashes, page_hashes_of(bytes, h));
    no_more_deltas_than_pages(m.page_hashes, page_hashes_of(bytes, h));
}

/// A working file is clean only where it is what the head snapshot describes: same page size,
/// same pages. (Left out are states that share a hash, and a manifest that lies under the id
/// of another state.)
pub proof fn clean_means_equal(
    s: StoreView,
    w: Working,
    allow_wal: bool,
    id: Seq<char>,
    m: ManifestView,
    v: StatusView,
    bytes: Seq<u8>,
    h: DbHeader,
)
    requires
        status_of(s, w, allow_wal) == Ok::<StatusView, ErrorView>(v),
        head_snapshot(s) == Ok::<Option<Seq<char>>, ErrorView>(Some(id)),
        manifest_of(s, id) == Ok::<ManifestView, ErrorView>(m),
        m.id == id,
        opens_as(w, bytes, h),
        ({
            let x = encode_utf8(
                state_text(m.page_size, m.page_hashes),
            );
            let y = encode_utf8(
                state_text(h.page_size, page_hashes_of(bytes, h)),
            );
            hex_sha256(x) == hex_sha256(y) ==> x == y
        }),
    ensures
        !v.dirty <==> m.page_size == h.page_size && m.page_hashes == page_hashes_of(bytes, h),
{
    let hashes = page_hashes_of(bytes, h);
    assert(working_hashes(w, h) =~= hashes);
    manifest_is_intact(as_text(snap_file(s, id).unwrap()).unwrap(), m);
    if !v.dirty {
        assert forall|i: int| 0 <= i < hashes.len() implies is_hash(#[trigger] hashes[i]) by {
            hash_shape(file_page(bytes, h.page_size as int, i + 1));
        }
        equal_ids_mean_equal_states(m.page_size, m.page_hashes, h.page_size, hashes);
    }
}

/// Before the first snapshot of a branch the working file is dirty, and all of its pages are.
pub proof fn everything_is_dirty_at_first(
    s: StoreView,
    w: Working,
    allow_wal: bool,
    v: StatusView,
    bytes: Seq<u8>,
    h: DbHeader,
)
    requires
        status_of(s, w, allow_wal) == Ok::<StatusView, ErrorView>(v),
        head_snapshot(s) == Ok::<Option<Seq<char>>, ErrorView>(None),
        opens_as(w, bytes, h),
    ensures
        v.dirty,
        v.head is None,
        v.pages_changed == h.page_count,
{
}

/// The status can be told of every database beside which nothing is under way, if what HEAD
/// stands for can be read.
pub proof fn status_goes_through(
    s: StoreView,
    w: Working,
    allow_wal: bool,
    bytes: Seq<u8>,
    h: DbHeader,
)
    requires
        opens_as(w, bytes, h),
        quiet(w, allow_wal),
        head_snapshot(s) matches Ok(head) && (head matches Some(id) ==> manifest_of(s, id) is Ok),
    ensures
        status_of(s, w, allow_wal) is Ok,
{
}

} // verus!
