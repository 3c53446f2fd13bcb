//! What `snap`, `log`, `diff` and `tables` report, said of what they look at.

use vstd::prelude::*;

use crate::args::ArgsView;
use crate::btree::owners::owners;
use crate::btree::owners::PageKind;
use crate::btree::owners::PageOwnerView;
use crate::cli::working_header;
use crate::cli::Working;
use crate::commands::compare::diff_lines;
use crate::commands::compare::diff_output;
use crate::commands::compare::diff_sides;
use crate::commands::compare::page_tags;
use crate::commands::compare::side_state;
use crate::commands::compare::table_line;
use crate::commands::compare::table_lines;
use crate::commands::compare::tables_of_ref;
use crate::commands::compare::tables_of_working;
use crate::commands::compare::tables_ref;
use crate::commands::compare::SideView;
use crate::commands::laws::follows_at;
use crate::commands::laws::follows_parents;
use crate::commands::laws::next_after;
use crate::commands::snaps::head_snapshot;
use crate::commands::snaps::history_from;
use crate::commands::snaps::log_line;
use crate::commands::snaps::log_lines;
use crate::commands::snaps::log_output;
use crate::dbfile::DbFile;
use crate::dbfile::DbHeader;
use crate::dbfile::Pages;
use crate::diff::compared;
use crate::diff::deltas;
use crate::diff::label_of;
use crate::diff::owner_rows;
use crate::diff::DiffReportView;
use crate::error::ErrorView;
use crate::files::names_of;
use crate::manifest::id_of;
use crate::manifest::ManifestView;
use crate::order::name_le;
use crate::render::short_id;
use crate::sha256::hex_sha256;
use crate::snapshot::db_id;
use crate::snapshot::db_pages;
use crate::snapshot::guard_refusal;
use crate::snapshot::hashes_of;
use crate::snapshot::head_branch;
use crate::snapshot::new_pages;
use crate::snapshot::snap_outcome;
use crate::snapshot::snapped;
use crate::snapshot::unsnapped;
use crate::snapshot::with_pages;
use crate::snapshot::Sidecars;
use crate::snapshot_laws::ids_are_hashes;
use crate::snapshot_laws::intact;
use crate::snapshot_laws::new_pages_are_counted;
use crate::snapshot_laws::storing_pages_only_adds;
use crate::store::hash_is_its_path;
use crate::store::manifest_of;
use crate::store::resolved;
use crate::store::StoreView;
use crate::tally::label_le;
use crate::tally::rollup;
use crate::tally::rollup_exists;
use crate::tally::row_of;
use crate::tally::tagged;
use crate::tally::tally;
use crate::tally::RowView;
use crate::tally::Slot;
use crate::tally::Tag;

verus! {

// ---------------------------------------------------------------------------------------
// snap
// ---------------------------------------------------------------------------------------
/// What `snap` reports is what it did: every page of the file is either new or was there; of an
/// undamaged store, the objects that are new are as many as the store has grown by; each new one
/// took a page to write; and something changed exactly where the branch stood elsewhere before.
pub proof fn snap_reports_what_it_did(
    s: StoreView,
    db: DbFile,
    target: (Seq<char>, Option<Seq<char>>),
    message: Seq<char>,
    now: u64,
)
    requires
        s.objects.dom().finite(),
    ensures
        ({
            let o = snap_outcome(s, db, target);
            let after = snapped(s, db, target, message, now);
            &&& o.branch == target.0
            &&& o.parent == target.1
            &&& o.changed <==> target.1 != Some(o.id)
            &&& o.pages == db.header.page_count
            &&& o.new_objects + o.dedup_pages == o.pages
            &&& o.bytes_written == o.new_objects * db.header.page_size
            &&& intact(s) ==> after.objects.dom().len() == s.objects.dom().len() + o.new_objects
        }),
{
    let pages = db_pages(db);
    new_pages_are_counted(s, pages);
    let fresh = new_pages(s, pages);
    assert(fresh * db.header.page_size <= 0xffff_ffff * 0xffff_ffff) by (nonlinear_arith)
        requires
            fresh <= 0xffff_ffff,
            db.header.page_size <= 0xffff_ffff,
    ;
    assert(snapped(s, db, target, message, now).objects == with_pages(
        s,
        pages,
    ).objects);
}

/// The id of a snapshot is made of the page size and of the hash of each page of the file, in the
/// order of the pages.
pub proof fn snap_id_is_made_of_the_pages(db: DbFile, hashes: Seq<Seq<char>>)
    requires
        hashes.len() == db.header.page_count,
        forall|i: int|
            0 <= i < hashes.len() ==> #[trigger] hashes[i] == hex_sha256(
                db.bytes@.subrange(
                    i * db.header.page_size,
                    i * db.header.page_size + db.header.page_size,
                ),
            ),
    ensures
        db_id(db) == id_of(db.header.page_size, hashes),
{
    let pages = db_pages(db);
    let size = db.header.page_size as int;
    assert forall|i: int| 0 <= i < hashes.len() implies hex_sha256(pages[i])
        == #[trigger] hashes[i] by {
        assert((i + 1 - 1) * size == i * size && (i + 1) * size == i * size + size)
            by (nonlinear_arith);
    }
    assert(hashes_of(pages) =~= hashes);
}

/// A snapshot that fails because HEAD names a branch that cannot be written is not lost: its state
/// is recorded before that turns out, its pages and its manifest.
pub proof fn failed_snap_keeps_the_state(
    s: StoreView,
    db: DbFile,
    beside: Sidecars,
    allow_wal: bool,
    message: Seq<char>,
    now: u64,
    target: (Seq<char>, Option<Seq<char>>),
    i: int,
)
    requires
        head_branch(s) == Ok::<(Seq<char>, Option<Seq<char>>), ErrorView>(target),
        guard_refusal(db.path@, db.header.page_size, allow_wal, beside) is None,
        0 <= i < db_pages(db).len(),
    ensures
        ({
            let after = unsnapped(s, db, beside, allow_wal, message, now);
            &&& after.snaps.contains_key(db_id(db))
            &&& after.objects.contains_key(hex_sha256(db_pages(db)[i]))
            &&& after.refs == s.refs
            &&& after.head == s.head
        }),
{
    let pages = db_pages(db);
    storing_pages_only_adds(s, pages);
    ids_are_hashes(db.header.page_size, hashes_of(pages));
    hash_is_its_path(s, db_id(db));
    assert(hashes_of(pages)[i] == hex_sha256(pages[i]));
    assert(hashes_of(pages).contains(hex_sha256(pages[i])));
}

// ---------------------------------------------------------------------------------------
// log
// ---------------------------------------------------------------------------------------
proof fn history_reaches(
    s: StoreView,
    head: Option<Seq<char>>,
    limit: Option<usize>,
    ms: Seq<ManifestView>,
    k: nat,
)
    requires
        k <= ms.len(),
        follows_parents(s, head, ms),
        match limit {
            Some(n) => ms.len() == n || ms.len() < n && next_after(head, ms) is None,
            None => next_after(head, ms) is None && ms.len() <= names_of(s.snaps).len(),
        },
    ensures
        history_from(s, next_after(head, ms.take(k as int)), limit, ms.take(k as int)) == Ok::<
            Seq<ManifestView>,
            ErrorView,
        >(ms),
    decreases ms.len() - k,
{
    let done = ms.take(k as int);
    if k == ms.len() {
        assert(done =~= ms);
    } else {
        assert(follows_at(s, head, ms, k as int));
        if k > 0 {
            assert(done.last() == ms[k - 1]);
        }
        assert(done.push(ms[k as int]) =~= ms.take(k as int + 1));
        history_reaches(s, head, limit, ms, k + 1);
        assert(next_after(head, ms.take(k as int + 1)) == ms[k as int].parent);
    }
}

/// A history that can be read is shown: the snapshots that follow one another by their parents,
/// up to the first without one or up to the limit.
pub proof fn log_shows_the_history(
    s: StoreView,
    head: Option<Seq<char>>,
    limit: Option<usize>,
    ms: Seq<ManifestView>,
)
    requires
        follows_parents(s, head, ms),
        match limit {
            Some(n) => ms.len() == n || ms.len() < n && next_after(head, ms) is None,
            None => next_after(head, ms) is None && ms.len() <= names_of(s.snaps).len(),
        },
    ensures
        history_from(s, head, limit, Seq::empty()) == Ok::<Seq<ManifestView>, ErrorView>(ms),
{
    history_reaches(s, head, limit, ms, 0);
    assert(ms.take(0) =~= Seq::empty());
}

/// `log` says that there are no snapshots exactly where HEAD stands for none; otherwise it shows
/// the history from there, be it cut short by the limit.
pub proof fn log_says_where_there_is_nothing(s: StoreView, limit: Option<usize>, as_json: bool)
    ensures
        head_snapshot(s) matches Ok(Some(id)) ==> match history_from(
            s,
            Some(id),
            limit,
            Seq::empty(),
        ) {
            Ok(ms) => log_output(s, limit, as_json) == Ok::<Seq<Seq<char>>, ErrorView>(
                log_lines(ms, true, as_json),
            ),
            Err(_) => log_output(s, limit, as_json) is Err,
        },
        head_snapshot(s) == Ok::<Option<Seq<char>>, ErrorView>(None) ==> log_output(s, limit, false)
            == Ok::<Seq<Seq<char>>, ErrorView>(
            seq!["no snapshots yet (run `litegraft snap <db>`)"@],
        ),
{
}

// ---------------------------------------------------------------------------------------
// diff
// ---------------------------------------------------------------------------------------
/// A diff report compares the hashes of the old state with those of the new, and counts the
/// differences by who owns the pages in either; it is refused where the page sizes differ or the
/// pages of one of the states cannot be attributed, and nowhere else.
pub proof fn report_compares_the_two_states(
    old: Pages,
    new: Pages,
    old_hashes: Seq<Seq<char>>,
    new_hashes: Seq<Seq<char>>,
)
    ensures
        compared(old, new, old_hashes, new_hashes) is Ok <==> old.header.page_size
            == new.header.page_size && owners(old) is Ok && owners(new) is Ok,
        compared(old, new, old_hashes, new_hashes) matches Ok(r) ==> {
            &&& r.deltas == deltas(old_hashes, new_hashes)
            &&& r.page_size == old.header.page_size
            &&& old_hashes.len() <= u32::MAX ==> r.old_pages == old_hashes.len()
            &&& new_hashes.len() <= u32::MAX ==> r.new_pages == new_hashes.len()
            &&& owners(old) matches Ok(was) && owners(new) matches Ok(is) && r.by_owner
                == owner_rows(r.deltas, was, is)
        },
{
}

/// `diff` reports on the side that was named first against the one named second.
pub proof fn diff_goes_from_the_first_to_the_second(
    s: StoreView,
    w: Working,
    a: ArgsView,
    old: SideView,
    new: SideView,
    old_hashes: Seq<Seq<char>>,
    old_pages: Pages,
    new_hashes: Seq<Seq<char>>,
    new_pages: Pages,
    r: DiffReportView,
)
    requires
        diff_sides(s, a.positional) == Ok::<(SideView, SideView), ErrorView>((old, new)),
        side_state(s, w, a.allow_wal, old) == Ok::<(Seq<Seq<char>>, Pages), ErrorView>(
            (old_hashes, old_pages),
        ),
        side_state(s, w, a.allow_wal, new) == Ok::<(Seq<Seq<char>>, Pages), ErrorView>(
            (new_hashes, new_pages),
        ),
        compared(old_pages, new_pages, old_hashes, new_hashes) == Ok::<DiffReportView, ErrorView>(
            r,
        ),
    ensures
        diff_output(s, w, a) == Ok::<Seq<Seq<char>>, ErrorView>(diff_lines(old, new, r, a.json)),
{
}

/// The working file is compared by the hashes of its own pages, and its pages are read from it; a
/// snapshot is compared by the hashes that its manifest lists, and its pages are the objects of
/// these.
pub proof fn sides_are_what_they_stand_for(
    s: StoreView,
    w: Working,
    allow_wal: bool,
    id: Seq<char>,
    p: u32,
)
    ensures
        side_state(s, w, allow_wal, SideView::Working) matches Ok((hashes, pages)) ==> (
        working_header(w) matches Ok(h) && (w.content matches Ok(bytes) && pages.header == h
            && hashes.len() == h.page_count && (1 <= p <= h.page_count ==> (pages.read)(p) == Ok::<
            Seq<u8>,
            ErrorView,
        >(bytes@.subrange((p - 1) * h.page_size, p * h.page_size)) && hashes[p - 1] == hex_sha256(
            bytes@.subrange((p - 1) * h.page_size, p * h.page_size),
        )))),
        side_state(s, w, allow_wal, SideView::Snap(id)) matches Ok((hashes, pages)) ==> (
        manifest_of(s, id) matches Ok(m) && hashes == m.page_hashes && (1 <= p <= hashes.len()
            && s.objects.contains_key(hashes[p - 1]) ==> (pages.read)(p) == Ok::<
            Seq<u8>,
            ErrorView,
        >(s.objects[hashes[p - 1]]))),
{
}

// ---------------------------------------------------------------------------------------
// tables
// ---------------------------------------------------------------------------------------
/// The pages of a database of `page_count` pages that belong to `label` and are of a kind that
/// `kinds` picks.
pub open spec fn pages_of(
    map: Map<u32, PageOwnerView>,
    page_count: u32,
    label: Seq<char>,
    kinds: spec_fn(PageKind) -> bool,
) -> Seq<u32> {
    Seq::new(page_count as nat, |i: int| (i + 1) as u32).filter(
        |p: u32| label_of(map[p]) == label && kinds(map[p].kind),
    )
}

proof fn tags_upto(map: Map<u32, PageOwnerView>, n: u32, label: Seq<char>)
    ensures
        tally(page_tags(map, n), label, Slot::First) == pages_of(
            map,
            n,
            label,
            |k: PageKind| k == PageKind::BTree,
        ).len(),
        tally(page_tags(map, n), label, Slot::Second) == pages_of(
            map,
            n,
            label,
            |k: PageKind| k == PageKind::Overflow,
        ).len(),
        tally(page_tags(map, n), label, Slot::Third) == pages_of(
            map,
            n,
            label,
            |k: PageKind| k != PageKind::BTree && k != PageKind::Overflow,
        ).len(),
        tally(page_tags(map, n), label, Slot::First) + tally(page_tags(map, n), label, Slot::Second)
            + tally(page_tags(map, n), label, Slot::Third) <= n,
    decreases n,
{
    reveal(Seq::filter);
    let tags = page_tags(map, n);
    let all = Seq::new(n as nat, |i: int| (i + 1) as u32);
    if n > 0 {
        let m = (n - 1) as u32;
        tags_upto(map, m, label);
        assert(tags.drop_last() =~= page_tags(map, m));
        assert(all.drop_last() =~= Seq::new(m as nat, |i: int| (i + 1) as u32));
        assert(all.last() == n);
        assert(tags.last() == tags[n - 1]);
    }
}

/// Each row of `tables` counts what it says: the pages that are part of the object's tree, those
/// that it spills into, and those that are neither.
pub proof fn table_rows_count_their_pages(map: Map<u32, PageOwnerView>, page_count: u32, i: int)
    requires
        0 <= i < rollup(page_tags(map, page_count)).len(),
    ensures
        ({
            let row = rollup(page_tags(map, page_count))[i];
            &&& row.first == pages_of(
                map,
                page_count,
                row.label,
                |k: PageKind| k == PageKind::BTree,
            ).len()
            &&& row.second == pages_of(
                map,
                page_count,
                row.label,
                |k: PageKind| k == PageKind::Overflow,
            ).len()
            &&& row.third == pages_of(
                map,
                page_count,
                row.label,
                |k: PageKind| k != PageKind::BTree && k != PageKind::Overflow,
            ).len()
        }),
{
    let tags = page_tags(map, page_count);
    let row = rollup(tags)[i];
    rollup_exists(tags);
    assert(row == row_of(tags, row.label));
    tags_upto(map, page_count, row.label);
}

/// The owner of every page has a row of `tables`, and only one.
pub proof fn every_owner_has_a_row(map: Map<u32, PageOwnerView>, page_count: u32, p: u32)
    requires
        1 <= p <= page_count,
    ensures
        exists|i: int|
            0 <= i < rollup(page_tags(map, page_count)).len() && (#[trigger] rollup(
                page_tags(map, page_count),
            )[i]).label == label_of(map[p]),
        forall|i: int, j: int|
            0 <= i < j < rollup(page_tags(map, page_count)).len() ==> (#[trigger] rollup(
                page_tags(map, page_count),
            )[i]).label != (#[trigger] rollup(page_tags(map, page_count))[j]).label,
{
    let tags = page_tags(map, page_count);
    rollup_exists(tags);
    assert(tags[p - 1].label == label_of(map[p]));
    assert(tagged(tags, label_of(map[p])));
}

/// The rows of `tables` and of a diff are in the order of their labels: names come before labels in
/// parentheses, and each of the two in the order of their bytes.
pub proof fn rows_are_in_order(tags: Seq<Tag>, i: int, j: int)
    requires
        0 <= i < j < rollup(tags).len(),
    ensures
        ({
            let a = rollup(tags)[i].label;
            let b = rollup(tags)[j].label;
            let late_a = a.len() > 0 && a[0] == '(';
            let late_b = b.len() > 0 && b[0] == '(';
            &&& a != b
            &&& late_a ==> late_b
            &&& late_a == late_b ==> name_le(a, b)
        }),
{
    rollup_exists(tags);
    assert(label_le(rollup(tags)[i].label, rollup(tags)[j].label));
}

/// Without `--json`, `tables` shows a line for each row, in order, between its title and its last
/// line, and `log` shows a line for each snapshot.
pub proof fn rows_are_shown_one_by_one(
    rows: Seq<RowView>,
    h: DbHeader,
    label: Seq<char>,
    ms: Seq<ManifestView>,
    i: int,
)
    ensures
        table_lines(rows, h, label, false).len() == rows.len() + 2,
        0 <= i < rows.len() ==> table_lines(rows, h, label, false)[i + 1] == table_line(
            rows[i],
            h.page_size,
        ),
        log_lines(ms, true, false).len() == ms.len(),
        0 <= i < ms.len() ==> log_lines(ms, true, false)[i] == log_line(ms[i]),
{
}

/// `tables` is asked about the second word, and about the working file where there is none.
pub proof fn tables_asks_about_the_second_word(a: ArgsView)
    ensures
        a.positional.len() >= 2 ==> tables_ref(a) == a.positional[1],
        a.positional.len() < 2 ==> tables_ref(a) == "@"@,
{
}

/// `tables` shows the owners of the state it is asked about: of the working file, or of the
/// snapshot that the reference stands for.
pub proof fn tables_are_of_what_was_asked(
    s: StoreView,
    w: Working,
    a: ArgsView,
    name: Seq<char>,
    id: Seq<char>,
    hashes: Seq<Seq<char>>,
    pages: Pages,
    map: Map<u32, PageOwnerView>,
)
    requires
        owners(pages) == Ok::<Map<u32, PageOwnerView>, ErrorView>(map),
    ensures
        side_state(s, w, a.allow_wal, SideView::Working) == Ok::<
            (Seq<Seq<char>>, Pages),
            ErrorView,
        >((hashes, pages)) ==> tables_of_working(w, a) == Ok::<Seq<Seq<char>>, ErrorView>(
            table_lines(
                rollup(page_tags(map, pages.header.page_count)),
                pages.header,
                "@ (working file)"@,
                a.json,
            ),
        ),
        resolved(s, name) == Ok::<Seq<char>, ErrorView>(id) && side_state(
            s,
            w,
            a.allow_wal,
            SideView::Snap(id),
        ) == Ok::<(Seq<Seq<char>>, Pages), ErrorView>((hashes, pages)) ==> tables_of_ref(
            s,
            name,
            a.json,
        ) == Ok::<Seq<Seq<char>>, ErrorView>(
            table_lines(
                rollup(page_tags(map, pages.header.page_count)),
                pages.header,
                short_id(id),
                a.json,
            ),
        ),
{
}

} // verus!
