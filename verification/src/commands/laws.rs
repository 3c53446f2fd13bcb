//! What holds across commands.

use vstd::prelude::*;

use crate::args::ArgsView;
use crate::btree::owners::owners;
use crate::btree::owners::PageOwnerView;
use crate::cli::working_header;
use crate::cli::Working;
use crate::commands::branches::branch_output;
use crate::commands::branches::checkout_of;
use crate::commands::branches::checkout_output;
use crate::commands::branches::status_against;
use crate::commands::branches::status_of;
use crate::commands::branches::working_hashes;
use crate::commands::compare::diff_output;
use crate::commands::compare::diff_sides;
use crate::commands::compare::page_tags;
use crate::commands::compare::row_total;
use crate::commands::compare::side_state;
use crate::commands::compare::tables_of_working;
use crate::commands::compare::SideView;
use crate::commands::snaps::cmd_snap_refusal;
use crate::commands::snaps::head_snapshot;
use crate::commands::snaps::history_from;
use crate::commands::upkeep::broken_branches;
use crate::commands::upkeep::broken_snapshots;
use crate::commands::upkeep::corrupt_objects;
use crate::commands::upkeep::gc_counts;
use crate::commands::upkeep::gc_output;
use crate::commands::upkeep::is_garbage;
use crate::commands::upkeep::live_hashes;
use crate::commands::upkeep::missing_objects;
use crate::commands::upkeep::snapshot_problems;
use crate::commands::upkeep::swept;
use crate::commands::upkeep::verify_counts;
use crate::dbfile::file_page;
use crate::dbfile::DbFile;
use crate::dbfile::DbHeader;
use crate::dbfile::Pages;
use crate::diff::as_owner_rows;
use crate::diff::compared;
use crate::diff::count_change;
use crate::diff::diff_empty_iff_equal;
use crate::diff::owner_rows;
use crate::diff::slot_of;
use crate::diff::tags;
use crate::diff::Change;
use crate::diff::DiffReportView;
use crate::diff::OwnerDeltaView;
use crate::diff::PageDelta;
use crate::error::ErrorView;
use crate::files::lists;
use crate::files::lists_unique;
use crate::files::names_of;
use crate::files::FileMap;
use crate::manifest::id_of;
use crate::manifest::ManifestView;
use crate::order::by_name;
use crate::order::strictly;
use crate::paths::path_key;
use crate::roundtrip::manifest_is_intact;
use crate::sha256::hex_sha256;
use crate::snapshot::db_id;
use crate::snapshot::db_pages;
use crate::snapshot::file_pages;
use crate::snapshot::guard_refusal;
use crate::snapshot::hashes_of;
use crate::snapshot::joined;
use crate::snapshot::restored;
use crate::snapshot::restored_at;
use crate::snapshot::snap_refusal;
use crate::snapshot::snap_target;
use crate::snapshot::snapped;
use crate::snapshot::unsnapped;
use crate::snapshot::with_pages;
use crate::snapshot::Sidecars;
use crate::snapshot_laws::ids_are_hashes;
use crate::snapshot_laws::intact;
use crate::snapshot_laws::new_manifest;
use crate::snapshot_laws::snap_is_idempotent;
use crate::snapshot_laws::sound_for;
use crate::snapshot_laws::storing_pages_only_adds;
use crate::store::has_snap;
use crate::store::has_sound_object;
use crate::store::hash_is_its_path;
use crate::store::is_object_name;
use crate::store::manifest_of;
use crate::store::object_list;
use crate::store::object_of;
use crate::store::resolved;
use crate::store::snap_file;
use crate::store::snapshot_list;
use crate::store::StoreView;
use crate::tally::is_rollup;
use crate::tally::labels_of;
use crate::tally::rollup;
use crate::tally::rollup_adds_up;
use crate::tally::rollup_exists;
use crate::tally::rollup_unique;
use crate::tally::row_of;
use crate::tally::slot_count;
use crate::tally::sum_of;
use crate::tally::tally_bound;
use crate::tally::RowView;
use crate::tally::Slot;
use crate::tally::Tag;
use crate::text::as_text;

verus! {

// ---------------------------------------------------------------------------------------
// Listings
// ---------------------------------------------------------------------------------------
/// The names of `files` can be listed, as those of every directory can.
pub open spec fn listable(files: FileMap) -> bool {
    exists|names: Seq<Seq<char>>| lists(names, files)
}

/// What is picked from names in ascending order is in ascending order.
pub proof fn filter_keeps_order(s: Seq<Seq<char>>, pred: spec_fn(Seq<char>) -> bool)
    requires
        strictly(s, by_name()),
    ensures
        strictly(s.filter(pred), by_name()),
        forall|k: Seq<char>| #[trigger] s.filter(pred).contains(k) <==> s.contains(k) && pred(k),
    decreases s.len(),
{
    reveal(Seq::filter);
    if s.len() > 0 {
        let rest = s.drop_last();
        let last = s.last();
        assert(strictly(rest, by_name())) by {
            assert forall|i: int, j: int| 0 <= i < j < rest.len() implies by_name()(
                #[trigger] rest[i],
                #[trigger] rest[j],
            ) && rest[i] != rest[j] by {
                assert(by_name()(s[i], s[j]) && s[i] != s[j]);
            }
        }
        filter_keeps_order(rest, pred);
        let f = rest.filter(pred);
        let g = s.filter(pred);
        if pred(last) {
            assert(g == f.push(last));
            assert forall|i: int, j: int| 0 <= i < j < g.len() implies by_name()(
                #[trigger] g[i],
                #[trigger] g[j],
            ) && g[i] != g[j] by {
                if j == f.len() {
                    assert(f.contains(f[i]));
                    assert(rest.contains(f[i]));
                    let k = choose|k: int| 0 <= k < rest.len() && rest[k] == f[i];
                    assert(by_name()(s[k], s[s.len() - 1]) && s[k] != s[s.len() - 1]);
                } else {
                    assert(by_name()(f[i], f[j]) && f[i] != f[j]);
                }
            }
        }
        assert forall|k: Seq<char>| #[trigger] g.contains(k) <==> s.contains(k) && pred(k) by {
            assert(f.contains(k) <==> rest.contains(k) && pred(k));
            if rest.contains(k) {
                let i = choose|i: int| 0 <= i < rest.len() && rest[i] == k;
                assert(s[i] == k);
            }
            if s.contains(k) && k != last {
                let i = choose|i: int| 0 <= i < s.len() && s[i] == k;
                assert(rest[i] == k);
            }
            if pred(last) {
                if f.contains(k) {
                    let i = choose|i: int| 0 <= i < f.len() && f[i] == k;
                    assert(g[i] == k);
                }
                if g.contains(k) && k != last {
                    let i = choose|i: int| 0 <= i < g.len() && g[i] == k;
                    assert(f[i] == k);
                }
                assert(g[f.len() as int] == last);
            }
            assert(s[s.len() - 1] == last);
        }
    }
}

proof fn objects_are_listed(s: StoreView)
    requires
        listable(s.objects),
    ensures
        forall|k: Seq<char>| #[trigger]
            object_list(s).contains(k) <==> s.objects.contains_key(k) && is_object_name()(k),
{
    let names = choose|names: Seq<Seq<char>>| lists(names, s.objects);
    lists_unique(names, s.objects);
    filter_keeps_order(names_of(s.objects), is_object_name());
}

// ---------------------------------------------------------------------------------------
// gc
// ---------------------------------------------------------------------------------------
proof fn live_covers(s: StoreView, ids: Seq<Seq<char>>, id: Seq<char>)
    requires
        live_hashes(s, ids) is Ok,
        ids.contains(id),
    ensures
        manifest_of(s, id) is Ok,
        forall|h: Seq<char>| #[trigger]
            manifest_of(s, id)->Ok_0.page_hashes.contains(h) ==> live_hashes(
                s,
                ids,
            )->Ok_0.contains(h),
    decreases ids.len(),
{
    let rest = ids.drop_last();
    let before = live_hashes(s, rest)->Ok_0;
    let last = manifest_of(s, ids.last())->Ok_0.page_hashes;
    let all = live_hashes(s, ids)->Ok_0;
    assert(all == before + last);
    if id != ids.last() {
        let i = choose|i: int| 0 <= i < ids.len() && ids[i] == id;
        assert(rest[i] == id);
        live_covers(s, rest, id);
        assert forall|h: Seq<char>| #[trigger]
            manifest_of(s, id)->Ok_0.page_hashes.contains(h) implies all.contains(h) by {
            assert(before.contains(h));
            let k = choose|k: int| 0 <= k < before.len() && before[k] == h;
            assert(all[k] == h);
        }
    } else {
        assert forall|h: Seq<char>| #[trigger]
            manifest_of(s, id)->Ok_0.page_hashes.contains(h) implies all.contains(h) by {
            let k = choose|k: int| 0 <= k < last.len() && last[k] == h;
            assert(all[before.len() + k] == h);
        }
    }
}

proof fn joined_agrees(s: StoreView, t: StoreView, page_size: u32, hashes: Seq<Seq<char>>)
    requires
        forall|i: int|
            0 <= i < hashes.len() ==> object_of(s, #[trigger] hashes[i]) == object_of(t, hashes[i]),
    ensures
        joined(s, page_size, hashes) == joined(t, page_size, hashes),
    decreases hashes.len(),
{
    if hashes.len() > 0 {
        let rest = hashes.drop_last();
        assert forall|i: int| 0 <= i < rest.len() implies object_of(s, #[trigger] rest[i])
            == object_of(t, rest[i]) by {
            assert(rest[i] == hashes[i]);
        }
        joined_agrees(s, t, page_size, rest);
        assert(hashes[hashes.len() - 1] == hashes.last());
    }
}

/// Removing unreachable objects takes nothing from any snapshot: each has the same manifest
/// and restores to the same bytes as before.
pub proof fn gc_keeps_every_snapshot(s: StoreView, live: Seq<Seq<char>>, id: Seq<char>)
    requires
        live_hashes(s, snapshot_list(s)) == Ok::<Seq<Seq<char>>, ErrorView>(live),
        snapshot_list(s).contains(id),
    ensures
        manifest_of(swept(s, live), id) == manifest_of(s, id),
        restored(swept(s, live), id) == restored(s, id),
{
    live_covers(s, snapshot_list(s), id);
    let t = swept(s, live);
    assert(manifest_of(t, id) == manifest_of(s, id));
    let m = manifest_of(s, id)->Ok_0;
    assert forall|i: int| 0 <= i < m.page_hashes.len() implies object_of(
        t,
        #[trigger] m.page_hashes[i],
    ) == object_of(s, m.page_hashes[i]) by {
        assert(m.page_hashes.contains(m.page_hashes[i]));
        assert(live.contains(m.page_hashes[i]));
    }
    joined_agrees(t, s, m.page_size, m.page_hashes);
}

proof fn nothing_removed(s: StoreView, live: Seq<Seq<char>>, hashes: Seq<Seq<char>>)
    requires
        forall|i: int| 0 <= i < hashes.len() ==> live.contains(#[trigger] hashes[i]),
    ensures
        gc_counts(s, live, hashes).removed == 0,
        gc_counts(s, live, hashes).freed == 0,
        gc_counts(s, live, hashes).kept == hashes.len(),
    decreases hashes.len(),
{
    if hashes.len() > 0 {
        let rest = hashes.drop_last();
        assert forall|i: int| 0 <= i < rest.len() implies live.contains(#[trigger] rest[i]) by {
            assert(live.contains(hashes[i]));
        }
        nothing_removed(s, live, rest);
        assert(live.contains(hashes[hashes.len() - 1]));
    }
}

/// Removing unreachable objects a second time removes nothing.
pub proof fn gc_is_idempotent(s: StoreView, live: Seq<Seq<char>>, as_json: bool)
    requires
        listable(s.objects),
        live_hashes(s, snapshot_list(s)) == Ok::<Seq<Seq<char>>, ErrorView>(live),
    ensures
        gc_output(swept(s, live), as_json) matches Ok(r) && r.0 == swept(s, live),
        gc_counts(swept(s, live), live, object_list(swept(s, live))).removed == 0,
        gc_counts(swept(s, live), live, object_list(swept(s, live))).kept == object_list(
            swept(s, live),
        ).len(),
{
    let t = swept(s, live);
    assert(snapshot_list(t) == snapshot_list(s));
    live_agrees(s, t, snapshot_list(s));
    assert(swept(t, live).objects =~= t.objects);
    let names = choose|names: Seq<Seq<char>>| lists(names, s.objects);
    let keep = |k: Seq<char>| !is_garbage(live, k);
    filter_keeps_order(names, keep);
    assert(lists(names.filter(keep), t.objects));
    objects_are_listed(t);
    assert forall|i: int| 0 <= i < object_list(t).len() implies live.contains(
        #[trigger] object_list(t)[i],
    ) by {
        assert(object_list(t).contains(object_list(t)[i]));
    }
    nothing_removed(t, live, object_list(t));
}

proof fn live_agrees(s: StoreView, t: StoreView, ids: Seq<Seq<char>>)
    requires
        s.snaps == t.snaps,
    ensures
        live_hashes(s, ids) == live_hashes(t, ids),
    decreases ids.len(),
{
    if ids.len() > 0 {
        live_agrees(s, t, ids.drop_last());
        assert(manifest_of(s, ids.last()) == manifest_of(t, ids.last()));
    }
}

// ---------------------------------------------------------------------------------------
// verify
// ---------------------------------------------------------------------------------------
proof fn no_corrupt_iff(s: StoreView, hashes: Seq<Seq<char>>)
    ensures
        corrupt_objects(s, hashes).len() == 0 <==> forall|i: int|
            0 <= i < hashes.len() ==> hex_sha256(s.objects[#[trigger] hashes[i]]) == hashes[i],
    decreases hashes.len(),
{
    if hashes.len() > 0 {
        let rest = hashes.drop_last();
        let last = hashes.len() - 1;
        no_corrupt_iff(s, rest);
        assert(hashes[last] == hashes.last());
        if corrupt_objects(s, hashes).len() == 0 {
            assert forall|i: int| 0 <= i < hashes.len() implies hex_sha256(
                s.objects[#[trigger] hashes[i]],
            ) == hashes[i] by {
                if i < last {
                    assert(rest[i] == hashes[i]);
                }
            }
        }
        if forall|i: int|
            0 <= i < hashes.len() ==> hex_sha256(s.objects[#[trigger] hashes[i]]) == hashes[i] {
            assert forall|i: int| 0 <= i < rest.len() implies hex_sha256(
                s.objects[#[trigger] rest[i]],
            ) == rest[i] by {
                assert(rest[i] == hashes[i]);
            }
        }
    }
}

proof fn no_missing_iff(s: StoreView, id: Seq<char>, hashes: Seq<Seq<char>>)
    ensures
        missing_objects(s, id, hashes).len() == 0 <==> forall|i: int|
            0 <= i < hashes.len() ==> s.objects.contains_key(#[trigger] hashes[i]),
    decreases hashes.len(),
{
    if hashes.len() > 0 {
        let rest = hashes.drop_last();
        let last = hashes.len() - 1;
        no_missing_iff(s, id, rest);
        assert(hashes[last] == hashes.last());
        if missing_objects(s, id, hashes).len() == 0 {
            assert forall|i: int| 0 <= i < hashes.len() implies s.objects.contains_key(
                #[trigger] hashes[i],
            ) by {
                if i < last {
                    assert(rest[i] == hashes[i]);
                }
            }
        }
        if forall|i: int| 0 <= i < hashes.len() ==> s.objects.contains_key(#[trigger] hashes[i]) {
            assert forall|i: int| 0 <= i < rest.len() implies s.objects.contains_key(
                #[trigger] rest[i],
            ) by {
                assert(rest[i] == hashes[i]);
            }
        }
    }
}

/// The manifest of snapshot `id` can be read, and all its pages are stored.
pub open spec fn complete(s: StoreView, id: Seq<char>) -> bool {
    manifest_of(s, id) matches Ok(m) && forall|i: int|
        0 <= i < m.page_hashes.len() ==> s.objects.contains_key(#[trigger] m.page_hashes[i])
}

proof fn no_broken_snapshot_iff(s: StoreView, ids: Seq<Seq<char>>)
    ensures
        broken_snapshots(s, ids).len() == 0 <==> forall|i: int|
            0 <= i < ids.len() ==> complete(s, #[trigger] ids[i]),
    decreases ids.len(),
{
    if ids.len() > 0 {
        let rest = ids.drop_last();
        let last = ids.len() - 1;
        no_broken_snapshot_iff(s, rest);
        assert(ids[last] == ids.last());
        if let Ok(m) = manifest_of(s, ids.last()) {
            no_missing_iff(s, ids.last(), m.page_hashes);
        }
        assert(snapshot_problems(s, ids.last()).len() == 0 <==> complete(s, ids.last()));
        if broken_snapshots(s, ids).len() == 0 {
            assert forall|i: int| 0 <= i < ids.len() implies complete(s, #[trigger] ids[i]) by {
                if i < last {
                    assert(rest[i] == ids[i]);
                }
            }
        }
        if forall|i: int| 0 <= i < ids.len() ==> complete(s, #[trigger] ids[i]) {
            assert forall|i: int| 0 <= i < rest.len() implies complete(s, #[trigger] rest[i]) by {
                assert(rest[i] == ids[i]);
            }
        }
    }
}

proof fn no_broken_branch_iff(s: StoreView, branches: Seq<(Seq<char>, Seq<char>)>)
    ensures
        broken_branches(s, branches).len() == 0 <==> forall|i: int|
            0 <= i < branches.len() ==> has_snap(s, (#[trigger] branches[i]).1),
    decreases branches.len(),
{
    if branches.len() > 0 {
        let rest = branches.drop_last();
        let last = branches.len() - 1;
        no_broken_branch_iff(s, rest);
        assert(branches[last] == branches.last());
        if broken_branches(s, branches).len() == 0 {
            assert forall|i: int| 0 <= i < branches.len() implies has_snap(
                s,
                (#[trigger] branches[i]).1,
            ) by {
                if i < last {
                    assert(rest[i] == branches[i]);
                }
            }
        }
        if forall|i: int|
            0 <= i < branches.len() ==> has_snap(s, (#[trigger] branches[i]).1) {
            assert forall|i: int| 0 <= i < rest.len() implies has_snap(
                s,
                (#[trigger] rest[i]).1,
            ) by {
                assert(rest[i] == branches[i]);
            }
        }
    }
}

/// A store passes `verify` exactly where every object has the hash it is stored under, every
/// manifest can be read, every page of every snapshot is stored, and every branch points to
/// where something is: a snapshot, or, where its id is empty, the directory of all of them.
pub proof fn verify_passes_iff_sound(s: StoreView, branches: Seq<(Seq<char>, Seq<char>)>)
    ensures
        verify_counts(s, branches).ok() <==> {
            &&& forall|i: int|
                0 <= i < object_list(s).len() ==> hex_sha256(
                    s.objects[#[trigger] object_list(s)[i]],
                ) == object_list(s)[i]
            &&& forall|i: int|
                0 <= i < snapshot_list(s).len() ==> complete(s, #[trigger] snapshot_list(s)[i])
            &&& forall|i: int|
                0 <= i < branches.len() ==> has_snap(s, (#[trigger] branches[i]).1)
        },
{
    no_corrupt_iff(s, object_list(s));
    no_broken_snapshot_iff(s, snapshot_list(s));
    no_broken_branch_iff(s, branches);
}

proof fn storing_pages_keeps_intact(s: StoreView, pages: Seq<Seq<u8>>)
    requires
        intact(s),
    ensures
        intact(with_pages(s, pages)),
    decreases pages.len(),
{
    if pages.len() > 0 {
        storing_pages_keeps_intact(s, pages.drop_last());
    }
}

/// Taking a snapshot keeps every object under its hash.
pub proof fn snap_keeps_store_intact(s: StoreView, db: DbFile, message: Seq<char>, now: u64)
    requires
        intact(s),
        snap_target(s) is Ok,
    ensures
        intact(snapped(s, db, snap_target(s)->Ok_0, message, now)),
{
    storing_pages_keeps_intact(s, db_pages(db));
}

// ---------------------------------------------------------------------------------------
// log
// ---------------------------------------------------------------------------------------
/// Entry `i` of `ms` is the manifest of the parent of the entry before it; the first is that
/// of snapshot `cursor`.
pub open spec fn follows_at(
    s: StoreView,
    cursor: Option<Seq<char>>,
    ms: Seq<ManifestView>,
    i: int,
) -> bool {
    let at = if i == 0 {
        cursor
    } else {
        ms[i - 1].parent
    };
    at matches Some(id) && manifest_of(s, id) == Ok::<ManifestView, ErrorView>(ms[i])
}

/// `ms` follows the parents from snapshot `cursor` on.
pub open spec fn follows_parents(
    s: StoreView,
    cursor: Option<Seq<char>>,
    ms: Seq<ManifestView>,
) -> bool {
    forall|i: int| 0 <= i < ms.len() ==> #[trigger] follows_at(s, cursor, ms, i)
}

/// What comes after `ms`, that started at `cursor`.
pub open spec fn next_after(cursor: Option<Seq<char>>, ms: Seq<ManifestView>) -> Option<Seq<char>> {
    if ms.len() == 0 {
        cursor
    } else {
        ms.last().parent
    }
}

proof fn history_follows(
    s: StoreView,
    start: Option<Seq<char>>,
    limit: Option<usize>,
    done: Seq<ManifestView>,
)
    requires
        follows_parents(s, start, done),
        limit matches Some(n) ==> done.len() <= n,
    ensures
        history_from(s, next_after(start, done), limit, done) matches Ok(ms) ==> {
            &&& follows_parents(s, start, ms)
            &&& limit matches Some(n) ==> ms.len() <= n
            &&& next_after(start, ms) is None || (limit matches Some(n) && ms.len() == n)
        },
    decreases
            (match limit {
                Some(n) => n as int,
                None => names_of(s.snaps).len() as int,
            }) - done.len(),
{
    let cursor = next_after(start, done);
    if cursor is None || (limit matches Some(n) && done.len() >= n) {
    } else if let Ok(m) = manifest_of(s, cursor.unwrap()) {
        if !(limit is None && done.len() >= names_of(s.snaps).len()) {
            let more = done.push(m);
            assert(follows_parents(s, start, more)) by {
                assert forall|i: int| 0 <= i < more.len() implies #[trigger] follows_at(
                    s,
                    start,
                    more,
                    i,
                ) by {
                    if i < done.len() {
                        assert(follows_at(s, start, done, i));
                    }
                }
            }
            history_follows(s, start, limit, more);
        }
    }
}

/// The log runs from the head back along the parents, the newest snapshot first: to the first
/// snapshot without a parent, or to the limit.
pub proof fn log_follows_parents(s: StoreView, head: Option<Seq<char>>, limit: Option<usize>)
    ensures
        history_from(s, head, limit, Seq::empty()) matches Ok(ms) ==> {
            &&& follows_parents(s, head, ms)
            &&& limit matches Some(n) ==> ms.len() <= n
            &&& next_after(head, ms) is None || (limit matches Some(n) && ms.len() == n)
        },
{
    history_follows(s, head, limit, Seq::empty());
}

/// A snapshot that was just taken is the newest of the log; if its state was new to the
/// store, its parent is what was the newest before.
pub proof fn snap_becomes_the_newest(s: StoreView, db: DbFile, message: Seq<char>, now: u64)
    requires
        sound_for(s, db),
    ensures
        ({
            let target = snap_target(s)->Ok_0;
            let after = snapped(s, db, target, message, now);
            &&& head_snapshot(s) == Ok::<Option<Seq<char>>, ErrorView>(target.1)
            &&& head_snapshot(after) == Ok::<Option<Seq<char>>, ErrorView>(Some(db_id(db)))
            &&& !s.snaps.contains_key(db_id(db)) && target.1 != Some("-"@) ==> (manifest_of(
                after,
                db_id(db),
            ) matches Ok(m) && m.parent == target.1 && m.branch == target.0 && m.created == now)
        }),
{
    let target = snap_target(s)->Ok_0;
    let after = snapped(s, db, target, message, now);
    snap_is_idempotent(s, db, message, now, message, now);
    assert(snap_target(after) == Ok::<(Seq<char>, Option<Seq<char>>), ErrorView>(
        (target.0, Some(db_id(db))),
    ));
    if !s.snaps.contains_key(db_id(db)) {
        new_manifest(s, db, message, now);
    }
}

// ---------------------------------------------------------------------------------------
// status
// ---------------------------------------------------------------------------------------
/// A working file whose state is that of the head snapshot is clean: it is not dirty, and no
/// page differs.
pub proof fn status_is_clean_at_head(
    s: StoreView,
    w: Working,
    h: DbHeader,
    branch: Seq<char>,
    m: ManifestView,
)
    requires
        manifest_of(s, m.id) == Ok::<ManifestView, ErrorView>(m),
        m.page_size == h.page_size,
        m.page_hashes == working_hashes(w, h),
        m.id == id_of(m.page_size, m.page_hashes),
    ensures
        status_against(s, w, h, (branch, Some(m.id))) matches Ok(v) && !v.dirty && v.pages_changed
            == 0,
{
    diff_empty_iff_equal(m.page_hashes, working_hashes(w, h));
}

// ---------------------------------------------------------------------------------------
// tables
// ---------------------------------------------------------------------------------------
proof fn slots_add_up(tags: Seq<Tag>)
    ensures
        slot_count(tags, Slot::First) + slot_count(tags, Slot::Second) + slot_count(
            tags,
            Slot::Third,
        ) == tags.len(),
    decreases tags.len(),
{
    if tags.len() > 0 {
        slots_add_up(tags.drop_last());
    }
}

/// The pages of all `rows`.
pub open spec fn pages_in(rows: Seq<RowView>) -> nat
    decreases rows.len(),
{
    if rows.len() == 0 {
        0
    } else {
        pages_in(rows.drop_last()) + row_total(rows.last())
    }
}

proof fn pages_in_sums(rows: Seq<RowView>, tags: Seq<Tag>)
    requires
        tags.len() <= u32::MAX,
        forall|i: int| 0 <= i < rows.len() ==> (#[trigger] rows[i]) == row_of(tags, rows[i].label),
    ensures
        pages_in(rows) == sum_of(labels_of(rows), tags, Slot::First) + sum_of(
            labels_of(rows),
            tags,
            Slot::Second,
        ) + sum_of(labels_of(rows), tags, Slot::Third),
    decreases rows.len(),
{
    if rows.len() > 0 {
        let rest = rows.drop_last();
        assert forall|i: int| 0 <= i < rest.len() implies (#[trigger] rest[i]) == row_of(
            tags,
            rest[i].label,
        ) by {
            assert(rows[i] == rest[i]);
        }
        pages_in_sums(rest, tags);
        assert(labels_of(rows).drop_last() =~= labels_of(rest));
        assert(rows[rows.len() - 1] == rows.last());
        tally_bound(tags, rows.last().label);
    }
}

/// The rows of `tables` add up to the number of pages of the database: every page is counted,
/// and counted once.
pub proof fn tables_count_every_page(map: Map<u32, PageOwnerView>, page_count: u32)
    ensures
        pages_in(rollup(page_tags(map, page_count))) == page_count,
{
    let tags = page_tags(map, page_count);
    rollup_exists(tags);
    rollup_adds_up(tags, Slot::First);
    rollup_adds_up(tags, Slot::Second);
    rollup_adds_up(tags, Slot::Third);
    slots_add_up(tags);
    pages_in_sums(rollup(tags), tags);
}

// ---------------------------------------------------------------------------------------
// diff
// ---------------------------------------------------------------------------------------
proof fn slots_count_changes(
    ds: Seq<PageDelta>,
    old: Map<u32, PageOwnerView>,
    new: Map<u32, PageOwnerView>,
    change: Change,
)
    ensures
        slot_count(tags(ds, old, new), slot_of(change)) == count_change(ds, change),
    decreases ds.len(),
{
    if ds.len() > 0 {
        let ts = tags(ds, old, new);
        slots_count_changes(ds.drop_last(), old, new, change);
        assert(ts.drop_last() =~= tags(ds.drop_last(), old, new));
        assert(ts.last() == ts[ds.len() - 1]);
    }
}

/// How many pages of an owner differ in this way.
pub open spec fn count_in(o: OwnerDeltaView, change: Change) -> nat {
    match change {
        Change::Changed => o.changed as nat,
        Change::Added => o.added as nat,
        Change::Removed => o.removed as nat,
    }
}

/// How many pages of all owners differ in this way.
pub open spec fn owners_sum(rows: Seq<OwnerDeltaView>, change: Change) -> nat
    decreases rows.len(),
{
    if rows.len() == 0 {
        0
    } else {
        owners_sum(rows.drop_last(), change) + count_in(rows.last(), change)
    }
}

proof fn owners_sum_is(rows: Seq<RowView>, ts: Seq<Tag>, change: Change)
    requires
        ts.len() <= u32::MAX,
        forall|i: int| 0 <= i < rows.len() ==> (#[trigger] rows[i]) == row_of(ts, rows[i].label),
    ensures
        owners_sum(as_owner_rows(rows), change) == sum_of(labels_of(rows), ts, slot_of(change)),
    decreases rows.len(),
{
    if rows.len() > 0 {
        let rest = rows.drop_last();
        assert forall|i: int| 0 <= i < rest.len() implies (#[trigger] rest[i]) == row_of(
            ts,
            rest[i].label,
        ) by {
            assert(rows[i] == rest[i]);
        }
        owners_sum_is(rest, ts, change);
        assert(labels_of(rows).drop_last() =~= labels_of(rest));
        assert(as_owner_rows(rows).drop_last() =~= as_owner_rows(rest));
        assert(rows[rows.len() - 1] == rows.last());
        tally_bound(ts, rows.last().label);
    }
}

/// The rows of a diff add up to its differences: for each kind of change, the counts of the
/// owners sum to the number of pages that changed in that way.
pub proof fn diff_rows_add_up(
    ds: Seq<PageDelta>,
    old: Map<u32, PageOwnerView>,
    new: Map<u32, PageOwnerView>,
    change: Change,
)
    requires
        ds.len() <= u32::MAX,
    ensures
        owners_sum(owner_rows(ds, old, new), change) == count_change(ds, change),
{
    let ts = tags(ds, old, new);
    rollup_exists(ts);
    rollup_adds_up(ts, slot_of(change));
    slots_count_changes(ds, old, new, change);
    owners_sum_is(rollup(ts), ts, change);
}

/// The diff of a state with itself is empty: no page differs, and no owner is listed.
pub proof fn diff_of_equal_states_is_empty(
    old: Pages,
    new: Pages,
    hashes: Seq<Seq<char>>,
    r: DiffReportView,
)
    requires
        compared(old, new, hashes, hashes) == Ok::<DiffReportView, ErrorView>(r),
    ensures
        r.deltas.len() == 0,
        r.by_owner.len() == 0,
{
    diff_empty_iff_equal(hashes, hashes);
    let ts = tags(r.deltas, owners(old)->Ok_0, owners(new)->Ok_0);
    let none = Seq::<RowView>::empty();
    assert(is_rollup(none, ts));
    rollup_unique(none, ts);
}

/// A diff of two snapshots does not depend on the working file.
pub proof fn diff_of_snapshots_ignores_the_working_file(
    s: StoreView,
    w: Working,
    other: Working,
    a: ArgsView,
    old_id: Seq<char>,
    new_id: Seq<char>,
)
    requires
        diff_sides(s, a.positional) == Ok::<(SideView, SideView), ErrorView>(
            (SideView::Snap(old_id), SideView::Snap(new_id)),
        ),
    ensures
        diff_output(s, w, a) == diff_output(s, other, a),
{
}

// ---------------------------------------------------------------------------------------
// checkout
// ---------------------------------------------------------------------------------------
/// A file that is put together has the length of its pages.
pub proof fn joined_len(s: StoreView, size: u32, hashes: Seq<Seq<char>>)
    ensures
        joined(s, size, hashes) matches Ok(bytes) ==> bytes.len() == size * hashes.len(),
    decreases hashes.len(),
{
    if hashes.len() > 0 {
        joined_len(s, size, hashes.drop_last());
        let n = hashes.len();
        assert(size * (n - 1) + size == size * n) by (nonlinear_arith);
    } else {
        assert(size * 0 == 0);
    }
}

/// A file that is put together has the objects for its pages.
pub proof fn joined_page(s: StoreView, size: u32, hashes: Seq<Seq<char>>, i: int)
    requires
        joined(s, size, hashes) is Ok,
        0 <= i < hashes.len(),
    ensures
        object_of(s, hashes[i]) == Ok::<Seq<u8>, ErrorView>(
            file_page(joined(s, size, hashes)->Ok_0, size as int, i + 1),
        ),
    decreases hashes.len(),
{
    let rest = hashes.drop_last();
    let n = hashes.len() as int;
    let before = joined(s, size, rest)->Ok_0;
    let bytes = joined(s, size, hashes)->Ok_0;
    joined_len(s, size, rest);
    assert(before.len() == size * (n - 1));
    assert(size * (n - 1) == (n - 1) * size && (n - 1) * size + size == n * size)
        by (nonlinear_arith);
    if i == n - 1 {
        assert(file_page(bytes, size as int, n) =~= bytes.skip(before.len() as int));
        assert(bytes.skip(before.len() as int) =~= object_of(s, hashes[i])->Ok_0);
    } else {
        joined_page(s, size, rest, i);
        assert(0 <= i * size && i * size + size == (i + 1) * size && (i + 1) * size <= (n - 1)
            * size) by (nonlinear_arith)
            requires
                0 <= i < n - 1,
                size >= 0,
        ;
        assert(file_page(bytes, size as int, i + 1) =~= file_page(before, size as int, i + 1));
    }
}

/// The pages of a restored file have the hashes that the snapshot lists, so the file has the
/// state that the snapshot's id stands for.
pub proof fn restored_file_has_the_state(
    s: StoreView,
    id: Seq<char>,
    m: ManifestView,
    bytes: Seq<u8>,
)
    requires
        intact(s),
        manifest_of(s, id) == Ok::<ManifestView, ErrorView>(m),
        restored(s, id) == Ok::<Seq<u8>, ErrorView>(bytes),
    ensures
        ({
            let pages = Seq::new(
                m.page_hashes.len(),
                |i: int| file_page(bytes, m.page_size as int, i + 1),
            );
            &&& bytes.len() == m.page_size * m.page_hashes.len()
            &&& hashes_of(pages) == m.page_hashes
            &&& id_of(m.page_size, hashes_of(pages)) == m.id
        }),
{
    let pages = Seq::new(
        m.page_hashes.len(),
        |i: int| file_page(bytes, m.page_size as int, i + 1),
    );
    joined_len(s, m.page_size, m.page_hashes);
    assert forall|i: int| 0 <= i < m.page_hashes.len() implies hashes_of(pages)[i]
        == m.page_hashes[i] by {
        joined_page(s, m.page_size, m.page_hashes, i);
        assert(s.objects.contains_key(m.page_hashes[i]));
    }
    assert(hashes_of(pages) =~= m.page_hashes);
    manifest_is_intact(as_text(snap_file(s, id).unwrap()).unwrap(), m);
}

/// After a checkout the working file is clean: its state is that of the snapshot that HEAD
/// stands for. (The restored file must open as a database of as many pages as the snapshot
/// lists, as that of a snapshot of a database does.)
pub proof fn checkout_leaves_a_clean_file(
    s: StoreView,
    w: Working,
    a: ArgsView,
    name: Seq<char>,
    id: Seq<char>,
    m: ManifestView,
    bytes: Seq<u8>,
    after: StoreView,
    lines: Seq<Seq<char>>,
    now: Working,
    h: DbHeader,
    branch: Seq<char>,
)
    requires
        intact(s),
        resolved(s, name) == Ok::<Seq<char>, ErrorView>(id),
        manifest_of(s, id) == Ok::<ManifestView, ErrorView>(m),
        m.id == id,
        checkout_of(s, w, a, name) == Ok::<(StoreView, Seq<u8>, Seq<Seq<char>>), ErrorView>(
            (after, bytes, lines),
        ),
        now.content matches Ok(b) && b@ == bytes,
        working_header(now) == Ok::<DbHeader, ErrorView>(h),
        h.page_size == m.page_size,
        h.page_count == m.page_hashes.len(),
    ensures
        status_against(after, now, h, (branch, Some(id))) matches Ok(v) && !v.dirty
            && v.pages_changed == 0,
{
    restored_file_has_the_state(s, id, m, bytes);
    let pages = Seq::new(
        m.page_hashes.len(),
        |i: int| file_page(bytes, m.page_size as int, i + 1),
    );
    assert(file_pages(bytes, h) =~= pages);
    assert(manifest_of(after, id) == manifest_of(s, id));
    status_is_clean_at_head(after, now, h, branch, m);
}

// ---------------------------------------------------------------------------------------
// Guards
// ---------------------------------------------------------------------------------------
/// While the files beside a database say that it is incomplete, nothing reads it as if it
/// were complete: `snap`, `status`, `tables` and both sides of `diff` are refused.
pub proof fn incomplete_files_are_refused(s: StoreView, w: Working, a: ArgsView, h: DbHeader)
    requires
        working_header(w) == Ok::<DbHeader, ErrorView>(h),
        guard_refusal(w.path@, h.page_size, a.allow_wal, w.beside) is Some,
    ensures
        cmd_snap_refusal(s, w, a) is Some,
        status_of(s, w, a.allow_wal) is Err,
        tables_of_working(w, a) is Err,
        side_state(s, w, a.allow_wal, SideView::Working) is Err,
{
}

/// While the files beside a database say that it is incomplete, nothing replaces it, not even
/// a checkout with `--force`.
pub proof fn incomplete_files_are_not_replaced(
    s: StoreView,
    w: Working,
    a: ArgsView,
    page_size: u32,
    id: Seq<char>,
)
    requires
        guard_refusal(w.path@, page_size, a.allow_wal, w.beside) is Some,
    ensures
        restored_at(s, id, w.path@, a.allow_wal, w.beside) is Err,
        checkout_output(s, w, a) is Err,
{
}

/// A journal that is not empty makes a database incomplete whatever is allowed; a write-ahead
/// log with more than its header does unless `--allow-wal` is given.
pub proof fn what_makes_a_file_incomplete(
    path: Seq<char>,
    page_size: u32,
    allow_wal: bool,
    beside: Sidecars,
)
    ensures
        guard_refusal(path, page_size, allow_wal, beside) is Some <==> ({
            ||| beside.journal_len matches Some(len) && len > 0
            ||| !allow_wal && (beside.wal_len matches Some(len) && len > 32)
        }),
{
}

// ---------------------------------------------------------------------------------------
// What commands leave alone
// ---------------------------------------------------------------------------------------
/// Taking a snapshot adds objects, adds at most one manifest and moves at most the current
/// branch: HEAD, the other branches, every manifest, and every object that is not damaged stay
/// as they are.
pub proof fn snap_leaves_the_rest_alone(
    s: StoreView,
    db: DbFile,
    message: Seq<char>,
    now: u64,
    name: Seq<char>,
)
    requires
        snap_target(s) is Ok,
    ensures
        ({
            let target = snap_target(s)->Ok_0;
            let after = snapped(s, db, target, message, now);
            &&& after.dir == s.dir && after.head == s.head
            &&& s.objects.contains_key(name) ==> after.objects.contains_key(name)
            &&& has_sound_object(s, name) ==> after.objects[name] == s.objects[name]
            &&& s.snaps.contains_key(name) ==> after.snaps.contains_key(name) && after.snaps[name]
                == s.snaps[name]
            &&& after.snaps.contains_key(name) ==> s.snaps.contains_key(name) || name == db_id(db)
            &&& name != path_key(target.0) ==> after.refs.contains_key(name)
                == s.refs.contains_key(name)
                && (s.refs.contains_key(name) ==> after.refs[name] == s.refs[name])
        }),
{
    storing_pages_only_adds(s, db_pages(db));
    ids_are_hashes(db.header.page_size, hashes_of(db_pages(db)));
    hash_is_its_path(s, db_id(db));
}

/// A snapshot that cannot be taken touches neither HEAD nor a branch, nor a manifest or an
/// object that is there and not damaged.
pub proof fn refused_snap_leaves_the_rest_alone(
    s: StoreView,
    db: DbFile,
    beside: Sidecars,
    allow_wal: bool,
    message: Seq<char>,
    now: u64,
    name: Seq<char>,
)
    requires
        snap_refusal(s, db, beside, allow_wal) is Some,
    ensures
        ({
            let after = unsnapped(s, db, beside, allow_wal, message, now);
            &&& after.dir == s.dir && after.head == s.head && after.refs == s.refs
            &&& has_sound_object(s, name) ==> after.objects.contains_key(name)
                && after.objects[name] == s.objects[name]
            &&& s.snaps.contains_key(name) ==> after.snaps.contains_key(name) && after.snaps[name]
                == s.snaps[name]
        }),
{
    storing_pages_only_adds(s, db_pages(db));
    ids_are_hashes(db.header.page_size, hashes_of(db_pages(db)));
    hash_is_its_path(s, db_id(db));
}

/// Making a branch adds one file and touches no other; listing branches changes nothing.
pub proof fn branch_leaves_the_rest_alone(s: StoreView, db: Seq<char>, a: ArgsView, name: Seq<char>)
    ensures
        branch_output(s, db, a) matches Ok(r) ==> {
            &&& r.0.dir == s.dir && r.0.head == s.head && r.0.objects == s.objects && r.0.snaps
                == s.snaps
            &&& s.refs.contains_key(name) ==> r.0.refs.contains_key(name) && r.0.refs[name]
                == s.refs[name]
            &&& a.positional.len() < 2 ==> r.0 == s
        },
{
}

/// Checking out changes nothing in the store but HEAD.
pub proof fn checkout_moves_only_head(s: StoreView, w: Working, a: ArgsView)
    ensures
        checkout_output(s, w, a) matches Ok(r) ==> r.0 == (StoreView { head: r.0.head, ..s }),
{
}

} // verus!
