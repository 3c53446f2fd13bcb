//! What `gc` removes and what `verify` finds, said of the files of a store.

use vstd::prelude::*;
use vstd::utf8::encode_utf8;

use crate::commands::laws::complete;
use crate::commands::laws::filter_keeps_order;
use crate::commands::laws::listable;
use crate::commands::laws::verify_passes_iff_sound;
use crate::commands::upkeep::broken_branches;
use crate::commands::upkeep::broken_snapshots;
use crate::commands::upkeep::corrupt_objects;
use crate::commands::upkeep::gc_counts;
use crate::commands::upkeep::gc_lines;
use crate::commands::upkeep::gc_output;
use crate::commands::upkeep::is_verdict;
use crate::commands::upkeep::live_hashes;
use crate::commands::upkeep::missing_objects;
use crate::commands::upkeep::snapshot_problems;
use crate::commands::upkeep::swept;
use crate::commands::upkeep::verify_counts;
use crate::commands::upkeep::verify_lines;
use crate::commands::upkeep::GcCounts;
use crate::commands::upkeep::Verdict;
use crate::commands::upkeep::VerifyCounts;
use crate::error::Error;
use crate::error::ErrorView;
use crate::files::lists;
use crate::files::lists_unique;
use crate::files::names_of;
use crate::order::by_name;
use crate::order::name_le;
use crate::sha256::hex_sha256;
use crate::store::branch_list;
use crate::store::branches_from;
use crate::store::has_snap;
use crate::store::is_object_name;
use crate::store::is_snapshot_name;
use crate::store::manifest_of;
use crate::store::object_list;
use crate::store::snapshot_list;
use crate::store::StoreView;
use crate::text::as_text;
use crate::text::texts;
use crate::text::trimmed;

verus! {

// ---------------------------------------------------------------------------------------
// Listings
// ---------------------------------------------------------------------------------------
/// Is `name` that of a file that is still being written?
pub open spec fn is_unfinished(name: Seq<char>) -> bool {
    name.len() >= 4 && name.skip(name.len() - 4) == ".tmp"@
}

/// Every object that was finished is listed, once, and nothing else is.
pub proof fn every_finished_object_is_listed(s: StoreView)
    requires
        listable(s.objects),
    ensures
        object_list(s).no_duplicates(),
        forall|k: Seq<char>| #[trigger]
            object_list(s).contains(k) <==> s.objects.contains_key(k) && !is_unfinished(k),
{
    reveal_strlit(".tmp");
    let names = choose|names: Seq<Seq<char>>| lists(names, s.objects);
    lists_unique(names, s.objects);
    filter_keeps_order(names_of(s.objects), is_object_name());
}

/// Every snapshot is listed, once, and nothing else is: a file whose name takes 64 bytes and
/// that was finished.
pub proof fn every_snapshot_is_listed(s: StoreView)
    requires
        listable(s.snaps),
    ensures
        snapshot_list(s).no_duplicates(),
        forall|k: Seq<char>| #[trigger]
            snapshot_list(s).contains(k) <==> s.snaps.contains_key(k) && encode_utf8(k).len() == 64
                && !is_unfinished(k),
{
    reveal_strlit(".tmp");
    let names = choose|names: Seq<Seq<char>>| lists(names, s.snaps);
    lists_unique(names, s.snaps);
    filter_keeps_order(names_of(s.snaps), is_snapshot_name());
}

proof fn branches_one_by_one(s: StoreView, names: Seq<Seq<char>>)
    ensures
        branches_from(s, names) matches Ok(r) ==> r.len() == names.len() && forall|i: int|
            0 <= i < r.len() ==> (#[trigger] r[i]).0 == names[i] && (as_text(
                s.refs[names[i]],
            ) matches Some(text) && r[i].1 == trimmed(text)),
        branches_from(s, names) is Err <==> exists|i: int|
            0 <= i < names.len() && as_text(s.refs[#[trigger] names[i]]) is None,
    decreases names.len(),
{
    if names.len() > 0 {
        let rest = names.drop_last();
        branches_one_by_one(s, rest);
        assert(names[names.len() - 1] == names.last());
        assert forall|i: int| 0 <= i < rest.len() implies rest[i] == #[trigger] names[i] by {}
        if let Err(_) = branches_from(s, rest) {
            let i = choose|i: int|
                0 <= i < rest.len() && as_text(s.refs[#[trigger] rest[i]]) is None;
            assert(as_text(s.refs[names[i]]) is None);
        } else if exists|i: int|
            0 <= i < names.len() && as_text(s.refs[#[trigger] names[i]]) is None {
            let i = choose|i: int|
                0 <= i < names.len() && as_text(s.refs[#[trigger] names[i]]) is None;
            if i < rest.len() {
                assert(as_text(s.refs[rest[i]]) is None);
            }
        }
    }
}

/// The branches are the files below `refs/heads`, each once and in the order of their names, with
/// what it holds without the space at its end; a file that is not text makes the list fail.
pub proof fn every_branch_is_listed(s: StoreView)
    requires
        listable(s.refs),
    ensures
        branch_list(s) is Err <==> exists|k: Seq<char>| #[trigger]
            s.refs.contains_key(k) && as_text(s.refs[k]) is None,
        branch_list(s) matches Ok(r) ==> {
            &&& forall|i: int, j: int|
                0 <= i < j < r.len() ==> name_le((#[trigger] r[i]).0, (#[trigger] r[j]).0) && r[i].0
                    != r[j].0
            &&& forall|i: int|
                0 <= i < r.len() ==> s.refs.contains_key((#[trigger] r[i]).0) && (as_text(
                    s.refs[r[i].0],
                ) matches Some(text) && r[i].1 == trimmed(text))
            &&& forall|k: Seq<char>| #[trigger]
                s.refs.contains_key(k) ==> exists|i: int|
                0 <= i < r.len() && (#[trigger] r[i]).0 == k
        },
{
    let names = choose|names: Seq<Seq<char>>| lists(names, s.refs);
    lists_unique(names, s.refs);
    branches_one_by_one(s, names);
    match branch_list(s) {
        Err(_) => {
            let i = choose|i: int|
                0 <= i < names.len() && as_text(s.refs[#[trigger] names[i]]) is None;
            assert(names.contains(names[i]));
            assert(s.refs.contains_key(names[i]));
        },
        Ok(r) => {
            assert forall|k: Seq<char>| #[trigger] s.refs.contains_key(k) implies exists|i: int|
                0 <= i < r.len() && (#[trigger] r[i]).0 == k by {
                assert(names.contains(k));
                let i = choose|i: int| 0 <= i < names.len() && names[i] == k;
                assert(r[i].0 == k);
            }
            assert forall|i: int, j: int| 0 <= i < j < r.len() implies name_le(
                (#[trigger] r[i]).0,
                (#[trigger] r[j]).0,
            ) && r[i].0 != r[j].0 by {
                assert(by_name()(names[i], names[j]) && names[i] != names[j]);
            }
            assert forall|i: int| 0 <= i < r.len() implies s.refs.contains_key(
                (#[trigger] r[i]).0,
            ) by {
                assert(names.contains(names[i]));
            }
            if exists|k: Seq<char>| #[trigger]
                s.refs.contains_key(k) && as_text(s.refs[k]) is None {
                let k = choose|k: Seq<char>| #[trigger]
                    s.refs.contains_key(k) && as_text(s.refs[k]) is None;
                assert(names.contains(k));
                let i = choose|i: int| 0 <= i < names.len() && names[i] == k;
                assert(as_text(s.refs[names[i]]) is None);
            }
        },
    }
}

// ---------------------------------------------------------------------------------------
// gc
// ---------------------------------------------------------------------------------------
/// `id` is a snapshot of the store.
pub open spec fn is_snapshot(s: StoreView, id: Seq<char>) -> bool {
    s.snaps.contains_key(id) && encode_utf8(id).len() == 64 && !is_unfinished(id)
}

/// A page of snapshot `id` has the hash `h`.
pub open spec fn needs(s: StoreView, id: Seq<char>, h: Seq<char>) -> bool {
    manifest_of(s, id) matches Ok(m) && m.page_hashes.contains(h)
}

/// A page of some snapshot of the store has the hash `h`.
pub open spec fn is_needed(s: StoreView, h: Seq<char>) -> bool {
    exists|id: Seq<char>| #[trigger]
        is_snapshot(s, id) && needs(s, id, h)
}

proof fn live_unless_unreadable(s: StoreView, ids: Seq<Seq<char>>)
    ensures
        live_hashes(s, ids) is Err <==> exists|i: int|
            0 <= i < ids.len() && manifest_of(s, #[trigger] ids[i]) is Err,
    decreases ids.len(),
{
    if ids.len() > 0 {
        let rest = ids.drop_last();
        live_unless_unreadable(s, rest);
        assert(ids[ids.len() - 1] == ids.last());
        if live_hashes(s, rest) is Err {
            let i = choose|i: int| 0 <= i < rest.len() && manifest_of(s, #[trigger] rest[i]) is Err;
            assert(manifest_of(s, ids[i]) is Err);
        } else if exists|i: int| 0 <= i < ids.len() && manifest_of(s, #[trigger] ids[i]) is Err {
            let i = choose|i: int| 0 <= i < ids.len() && manifest_of(s, #[trigger] ids[i]) is Err;
            if i < rest.len() {
                assert(manifest_of(s, rest[i]) is Err);
            }
        }
    }
}

proof fn live_from(s: StoreView, ids: Seq<Seq<char>>, h: Seq<char>)
    requires
        live_hashes(s, ids) is Ok,
    ensures
        live_hashes(s, ids)->Ok_0.contains(h) <==> exists|i: int|
            0 <= i < ids.len() && needs(s, #[trigger] ids[i], h),
    decreases ids.len(),
{
    if ids.len() > 0 {
        let rest = ids.drop_last();
        live_from(s, rest, h);
        assert(ids[ids.len() - 1] == ids.last());
        let before = live_hashes(s, rest)->Ok_0;
        let last = manifest_of(s, ids.last())->Ok_0.page_hashes;
        let live = before + last;
        assert(live.contains(h) <==> before.contains(h) || last.contains(h)) by {
            if before.contains(h) {
                let k = choose|k: int| 0 <= k < before.len() && before[k] == h;
                assert(live[k] == h);
            }
            if last.contains(h) {
                let k = choose|k: int| 0 <= k < last.len() && last[k] == h;
                assert(live[before.len() + k] == h);
            }
            if live.contains(h) {
                let k = choose|k: int| 0 <= k < live.len() && live[k] == h;
                if k >= before.len() {
                    assert(last[k - before.len()] == h);
                } else {
                    assert(before[k] == h);
                }
            }
        }
        if before.contains(h) {
            let i = choose|i: int| 0 <= i < rest.len() && needs(s, #[trigger] rest[i], h);
            assert(needs(s, ids[i], h));
        }
        if exists|i: int| 0 <= i < ids.len() && needs(s, #[trigger] ids[i], h) {
            let i = choose|i: int| 0 <= i < ids.len() && needs(s, #[trigger] ids[i], h);
            if i < rest.len() {
                assert(needs(s, rest[i], h));
            }
        }
    }
}

/// What `gc` leaves of the objects: those that a snapshot needs, and those that are still being
/// written. They keep their content, and nothing but objects is removed.
pub proof fn gc_removes_what_no_snapshot_needs(
    s: StoreView,
    as_json: bool,
    t: StoreView,
    lines: Seq<Seq<char>>,
    h: Seq<char>,
)
    requires
        listable(s.snaps),
        gc_output(s, as_json) == Ok::<(StoreView, Seq<Seq<char>>), ErrorView>((t, lines)),
    ensures
        t.objects.contains_key(h) <==> s.objects.contains_key(h) && (is_needed(s, h)
            || is_unfinished(h)),
        t.objects.contains_key(h) ==> t.objects[h] == s.objects[h],
        t.snaps == s.snaps,
        t.refs == s.refs,
        t.dirs == s.dirs,
        t.head == s.head,
        t.dir == s.dir,
{
    reveal_strlit(".tmp");
    every_snapshot_is_listed(s);
    let ids = snapshot_list(s);
    let live = live_hashes(s, ids)->Ok_0;
    live_from(s, ids, h);
    assert(t == swept(s, live));
    if live.contains(h) {
        let i = choose|i: int| 0 <= i < ids.len() && needs(s, #[trigger] ids[i], h);
        assert(ids.contains(ids[i]));
        assert(is_snapshot(s, ids[i]));
    }
    if is_needed(s, h) {
        let id = choose|id: Seq<char>| #[trigger]
            is_snapshot(s, id) && needs(s, id, h);
        assert(ids.contains(id));
        let i = choose|i: int| 0 <= i < ids.len() && ids[i] == id;
        assert(needs(s, ids[i], h));
    }
}

/// `gc` is refused exactly where some snapshot cannot be read: then nobody knows what is needed.
pub proof fn gc_is_refused_where_a_snapshot_is_unreadable(s: StoreView, as_json: bool)
    requires
        listable(s.snaps),
    ensures
        gc_output(s, as_json) is Err <==> exists|id: Seq<char>| #[trigger]
            is_snapshot(s, id) && manifest_of(s, id) is Err,
{
    every_snapshot_is_listed(s);
    let ids = snapshot_list(s);
    live_unless_unreadable(s, ids);
    if live_hashes(s, ids) is Err {
        let i = choose|i: int| 0 <= i < ids.len() && manifest_of(s, #[trigger] ids[i]) is Err;
        assert(ids.contains(ids[i]));
        assert(is_snapshot(s, ids[i]));
    }
    if exists|id: Seq<char>| #[trigger] is_snapshot(s, id) && manifest_of(s, id) is Err {
        let id = choose|id: Seq<char>| #[trigger] is_snapshot(s, id) && manifest_of(s, id) is Err;
        assert(ids.contains(id));
        let i = choose|i: int| 0 <= i < ids.len() && ids[i] == id;
        assert(manifest_of(s, ids[i]) is Err);
    }
}

/// The bytes that the objects `names` take.
pub open spec fn total_size(s: StoreView, names: Seq<Seq<char>>) -> nat {
    names.fold_left(0nat, |n: nat, h: Seq<char>| n + s.objects[h].len())
}

/// `gc` counts what it removes, the bytes of that, and what it keeps.
pub proof fn gc_counts_what_it_removes(s: StoreView, live: Seq<Seq<char>>, names: Seq<Seq<char>>)
    ensures
        ({
            let c = gc_counts(s, live, names);
            let gone = names.filter(|h: Seq<char>| !live.contains(h));
            &&& c.removed == gone.len()
            &&& c.freed == total_size(s, gone)
            &&& c.removed + c.kept == names.len()
        }),
    decreases names.len(),
{
    reveal(Seq::filter);
    let pred = |h: Seq<char>| !live.contains(h);
    let gone = names.filter(pred);
    let size = |n: nat, h: Seq<char>| n + s.objects[h].len();
    if names.len() > 0 {
        let rest = names.drop_last();
        gc_counts_what_it_removes(s, live, rest);
        if pred(names.last()) {
            let before = rest.filter(pred);
            assert(gone == before.push(names.last()));
            assert(gone.drop_last() =~= before);
            reveal_with_fuel(Seq::fold_left, 2);
            assert(gone.fold_left(0nat, size) == size(before.fold_left(0nat, size), names.last()));
        }
    } else {
        reveal_with_fuel(Seq::fold_left, 2);
    }
}

proof fn same_filter(
    names: Seq<Seq<char>>,
    f: spec_fn(Seq<char>) -> bool,
    g: spec_fn(Seq<char>) -> bool,
)
    requires
        forall|i: int| 0 <= i < names.len() ==> f(#[trigger] names[i]) == g(names[i]),
    ensures
        names.filter(f) == names.filter(g),
    decreases names.len(),
{
    reveal(Seq::filter);
    if names.len() > 0 {
        let rest = names.drop_last();
        assert forall|i: int| 0 <= i < rest.len() implies f(#[trigger] rest[i]) == g(rest[i]) by {
            assert(rest[i] == names[i]);
        }
        same_filter(rest, f, g);
        assert(names[names.len() - 1] == names.last());
    }
}

/// What `gc` prints is what it did: how many of the finished objects are gone, how many bytes these
/// took, and how many are still there.
pub proof fn gc_reports_what_it_removed(
    s: StoreView,
    as_json: bool,
    t: StoreView,
    lines: Seq<Seq<char>>,
)
    requires
        listable(s.objects),
        listable(s.snaps),
        gc_output(s, as_json) == Ok::<(StoreView, Seq<Seq<char>>), ErrorView>((t, lines)),
    ensures
        ({
            let gone = object_list(s).filter(|h: Seq<char>| !t.objects.contains_key(h));
            lines == gc_lines(
                GcCounts {
                    removed: gone.len(),
                    freed: total_size(s, gone),
                    kept: (object_list(s).len() - gone.len()) as nat,
                },
                as_json,
            )
        }),
{
    let names = object_list(s);
    let live = live_hashes(s, snapshot_list(s))->Ok_0;
    every_finished_object_is_listed(s);
    gc_counts_what_it_removes(s, live, names);
    let f = |h: Seq<char>| !t.objects.contains_key(h);
    let g = |h: Seq<char>| !live.contains(h);
    assert forall|i: int| 0 <= i < names.len() implies f(#[trigger] names[i]) == g(names[i]) by {
        assert(names.contains(names[i]));
        reveal_strlit(".tmp");
    }
    same_filter(names, f, g);
}

// ---------------------------------------------------------------------------------------
// verify
// ---------------------------------------------------------------------------------------
/// `verify` complains of each object whose content has another hash than its name, and of no
/// other.
pub proof fn corrupt_objects_are_named(s: StoreView, names: Seq<Seq<char>>)
    ensures
        corrupt_objects(s, names) == names.filter(
            |h: Seq<char>| hex_sha256(s.objects[h]) != h,
        ).map_values(
            |h: Seq<char>| "verify: object "@ + h + " content does not match its hash"@,
        ),
    decreases names.len(),
{
    reveal(Seq::filter);
    let bad = |h: Seq<char>| hex_sha256(s.objects[h]) != h;
    let say = |h: Seq<char>| "verify: object "@ + h + " content does not match its hash"@;
    if names.len() > 0 {
        corrupt_objects_are_named(s, names.drop_last());
        if bad(names.last()) {
            assert(names.filter(bad) == names.drop_last().filter(bad).push(names.last()));
        }
    }
    assert(corrupt_objects(s, names) =~= names.filter(bad).map_values(say));
}

/// Of the pages of a snapshot, `verify` counts each that has no object.
pub proof fn missing_pages_are_counted(s: StoreView, id: Seq<char>, hashes: Seq<Seq<char>>)
    ensures
        missing_objects(s, id, hashes).len() == hashes.filter(
            |h: Seq<char>| !s.objects.contains_key(h),
        ).len(),
        manifest_of(s, id) is Err ==> snapshot_problems(s, id).len() == 1,
        manifest_of(s, id) matches Ok(m) && m.page_hashes == hashes ==> snapshot_problems(
            s,
            id,
        ).len() == missing_objects(s, id, hashes).len(),
    decreases hashes.len(),
{
    reveal(Seq::filter);
    if hashes.len() > 0 {
        missing_pages_are_counted(s, id, hashes.drop_last());
    }
}

/// The problems of several snapshots are those of each.
pub proof fn snapshots_are_checked_one_by_one(s: StoreView, a: Seq<Seq<char>>, b: Seq<Seq<char>>)
    ensures
        broken_snapshots(s, a + b) == broken_snapshots(s, a) + broken_snapshots(s, b),
    decreases b.len(),
{
    if b.len() > 0 {
        snapshots_are_checked_one_by_one(s, a, b.drop_last());
        assert((a + b).drop_last() =~= a + b.drop_last());
        assert((a + b).last() == b.last());
        assert(broken_snapshots(s, a + b) =~= broken_snapshots(s, a) + broken_snapshots(s, b));
    } else {
        assert(a + b =~= a);
        assert(broken_snapshots(s, a) + broken_snapshots(s, b) =~= broken_snapshots(s, a));
    }
}

/// `verify` counts each branch that points to where nothing is.
pub proof fn broken_branches_are_counted(s: StoreView, branches: Seq<(Seq<char>, Seq<char>)>)
    ensures
        broken_branches(s, branches).len() == branches.filter(
            |b: (Seq<char>, Seq<char>)| !has_snap(s, b.1),
        ).len(),
    decreases branches.len(),
{
    reveal(Seq::filter);
    if branches.len() > 0 {
        broken_branches_are_counted(s, branches.drop_last());
    }
}

/// The object `h` has the content that its name stands for.
pub open spec fn is_honest(s: StoreView, h: Seq<char>) -> bool {
    hex_sha256(s.objects[h]) == h
}

/// The verdict of `verify` is that all is well exactly where every finished object has the hash
/// it is stored under, every snapshot can be read and has all its pages, and every branch points
/// to where something is; and then, and only then, there is nothing to complain of.
pub proof fn verdict_tells_whether_the_store_is_sound(
    v: Verdict,
    s: StoreView,
    as_json: bool,
    lines: Vec<String>,
    ok: bool,
)
    requires
        listable(s.objects),
        listable(s.snaps),
        listable(s.refs),
        is_verdict(v, s, as_json),
        v.outcome == Ok::<(Vec<String>, bool), Error>((lines, ok)),
    ensures
        ok <==> {
            &&& forall|h: Seq<char>| #[trigger]
                s.objects.contains_key(h) && !is_unfinished(h) ==> is_honest(s, h)
            &&& forall|id: Seq<char>| #[trigger] is_snapshot(s, id) ==> complete(s, id)
            &&& forall|k: Seq<char>| #[trigger]
                s.refs.contains_key(k) ==> (as_text(s.refs[k]) matches Some(text) && has_snap(
                    s,
                    trimmed(text),
                ))
        },
        ok <==> v.complaints@.len() == 0,
{
    every_finished_object_is_listed(s);
    every_snapshot_is_listed(s);
    every_branch_is_listed(s);
    let branches = branch_list(s)->Ok_0;
    verify_passes_iff_sound(s, branches);
    let objects = object_list(s);
    let ids = snapshot_list(s);
    assert(texts(v.complaints@).len() == v.complaints@.len());
    assert(ok == verify_counts(s, branches).ok());
    if ok {
        assert forall|h: Seq<char>| #[trigger]
            s.objects.contains_key(h) && !is_unfinished(h) implies is_honest(s, h) by {
            assert(objects.contains(h));
            let i = choose|i: int| 0 <= i < objects.len() && objects[i] == h;
            assert(hex_sha256(s.objects[objects[i]]) == objects[i]);
        }
        assert forall|id: Seq<char>| #[trigger] is_snapshot(s, id) implies complete(s, id) by {
            assert(ids.contains(id));
            let i = choose|i: int| 0 <= i < ids.len() && ids[i] == id;
            assert(complete(s, ids[i]));
        }
        assert forall|k: Seq<char>| #[trigger] s.refs.contains_key(k) implies (as_text(
            s.refs[k],
        ) matches Some(text) && has_snap(s, trimmed(text))) by {
            let i = choose|i: int| 0 <= i < branches.len() && (#[trigger] branches[i]).0 == k;
            assert(has_snap(s, branches[i].1));
        }
    }
    if (forall|h: Seq<char>| #[trigger]
        s.objects.contains_key(h) && !is_unfinished(h) ==> is_honest(s, h)) && (forall|
        id: Seq<char>,
    | #[trigger] is_snapshot(s, id) ==> complete(s, id)) && (forall|k: Seq<char>| #[trigger]
        s.refs.contains_key(k) ==> (as_text(s.refs[k]) matches Some(text) && has_snap(
            s,
            trimmed(text),
        ))) {
        assert forall|i: int| 0 <= i < objects.len() implies hex_sha256(
            s.objects[#[trigger] objects[i]],
        ) == objects[i] by {
            assert(objects.contains(objects[i]));
            assert(is_honest(s, objects[i]));
        }
        assert forall|i: int| 0 <= i < ids.len() implies complete(s, #[trigger] ids[i]) by {
            assert(ids.contains(ids[i]));
            assert(is_snapshot(s, ids[i]));
        }
        assert forall|i: int| 0 <= i < branches.len() implies has_snap(
            s,
            (#[trigger] branches[i]).1,
        ) by {
            assert(s.refs.contains_key(branches[i].0));
        }
    }
}

/// What `verify` prints is what it found: the objects and how many of them have another hash, the
/// snapshots and how many problems they have, and how many branches lead nowhere.
pub proof fn verdict_prints_its_counts(
    v: Verdict,
    s: StoreView,
    as_json: bool,
    lines: Vec<String>,
    ok: bool,
    branches: Seq<(Seq<char>, Seq<char>)>,
)
    requires
        is_verdict(v, s, as_json),
        v.outcome == Ok::<(Vec<String>, bool), Error>((lines, ok)),
        branch_list(s) == Ok::<Seq<(Seq<char>, Seq<char>)>, ErrorView>(branches),
    ensures
        texts(lines@) == verify_lines(
            VerifyCounts {
                objects: object_list(s).len(),
                corrupt: object_list(s).filter(|h: Seq<char>| hex_sha256(s.objects[h]) != h).len(),
                snapshots: snapshot_list(s).len(),
                missing: broken_snapshots(s, snapshot_list(s)).len(),
                bad_refs: branches.filter(|b: (Seq<char>, Seq<char>)| !has_snap(s, b.1)).len(),
            },
            as_json,
        ),
{
    corrupt_objects_are_named(s, object_list(s));
    broken_branches_are_counted(s, branches);
}

/// `verify` ends without a verdict exactly where the branches cannot be listed.
pub proof fn verify_reaches_a_verdict(v: Verdict, s: StoreView, as_json: bool)
    requires
        listable(s.refs),
        is_verdict(v, s, as_json),
    ensures
        v.outcome is Err <==> exists|k: Seq<char>| #[trigger]
            s.refs.contains_key(k) && as_text(s.refs[k]) is None,
{
    every_branch_is_listed(s);
}

} // verus!
