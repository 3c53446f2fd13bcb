//! Looking after a store: checking it, and removing what no snapshot needs.

use vstd::prelude::*;

use crate::cli::add_line;
use crate::cli::one_line;
use crate::cli::two_lines;
use crate::error::Error;
use crate::error::ErrorView;
use crate::files::files_listed;
use crate::files::names_of;
use crate::files::FileMap;
use crate::files::Files;
use crate::manifest::page_hash;
use crate::render::bytes_text;
use crate::render::human_bytes;
use crate::render::short;
use crate::render::short_id;
use crate::render::truth;
use crate::render::truth_str;
use crate::sha256::hex_sha256;
use crate::store::branch_list;
use crate::store::has_snap;
use crate::store::is_object_name;
use crate::store::manifest_of;
use crate::store::object_list;
use crate::store::pair_views;
use crate::store::snapshot_list;
use crate::store::Store;
use crate::store::StoreView;
use crate::text::dec;
use crate::text::decimal;
use crate::text::same_text;
use crate::text::texts;

verus! {

// ---------------------------------------------------------------------------------------
// verify
// ---------------------------------------------------------------------------------------
/// What is wrong with the objects under `hashes`: their content has another hash.
pub open spec fn corrupt_objects(s: StoreView, hashes: Seq<Seq<char>>) -> Seq<Seq<char>>
    decreases hashes.len(),
{
    if hashes.len() == 0 {
        Seq::empty()
    } else {
        let before = corrupt_objects(s, hashes.drop_last());
        if hex_sha256(s.objects[hashes.last()]) != hashes.last() {
            before.push(
                "verify: object "@ + hashes.last() + " content does not match its hash"@,
            )
        } else {
            before
        }
    }
}

/// Which of `hashes`, the pages of snapshot `id`, have no object.
pub open spec fn missing_objects(s: StoreView, id: Seq<char>, hashes: Seq<Seq<char>>) -> Seq<
    Seq<char>,
>
    decreases hashes.len(),
{
    if hashes.len() == 0 {
        Seq::empty()
    } else {
        let before = missing_objects(s, id, hashes.drop_last());
        if s.objects.contains_key(hashes.last()) {
            before
        } else {
            before.push(
                "verify: snapshot "@ + short_id(id) + " is missing page object "@ + hashes.last(),
            )
        }
    }
}

/// What is wrong with snapshot `id`: its manifest cannot be read, or objects are missing.
pub open spec fn snapshot_problems(s: StoreView, id: Seq<char>) -> Seq<Seq<char>> {
    match manifest_of(s, id) {
        Err(e) => seq!["verify: snapshot "@ + id + ": "@ + e.message],
        Ok(m) => missing_objects(s, id, m.page_hashes),
    }
}

/// What is wrong with the snapshots `ids`.
pub open spec fn broken_snapshots(s: StoreView, ids: Seq<Seq<char>>) -> Seq<Seq<char>>
    decreases ids.len(),
{
    if ids.len() == 0 {
        Seq::empty()
    } else {
        broken_snapshots(s, ids.drop_last()) + snapshot_problems(s, ids.last())
    }
}

/// Which of `branches` point to where nothing is.
pub open spec fn broken_branches(s: StoreView, branches: Seq<(Seq<char>, Seq<char>)>) -> Seq<
    Seq<char>,
>
    decreases branches.len(),
{
    if branches.len() == 0 {
        Seq::empty()
    } else {
        let before = broken_branches(s, branches.drop_last());
        if has_snap(s, branches.last().1) {
            before
        } else {
            before.push(
                "verify: branch "@ + branches.last().0 + " points at missing snapshot "@
                    + short_id(branches.last().1),
            )
        }
    }
}

/// What `verify` counts.
pub struct VerifyCounts {
    pub objects: nat,
    pub corrupt: nat,
    pub snapshots: nat,
    pub missing: nat,
    pub bad_refs: nat,
}

impl VerifyCounts {
    /// Nothing is wrong.
    pub open spec fn ok(self) -> bool {
        self.corrupt == 0 && self.missing == 0 && self.bad_refs == 0
    }
}

/// What `verify` prints of its counts.
pub open spec fn verify_lines(c: VerifyCounts, as_json: bool) -> Seq<Seq<char>> {
    if as_json {
        seq![
            "{\"objects\":"@ + dec(c.objects) + ",\"corrupt\":"@ + dec(c.corrupt)
                + ",\"snapshots\":"@ + dec(c.snapshots) + ",\"missing\":"@ + dec(c.missing)
                + ",\"bad_refs\":"@ + dec(c.bad_refs) + ",\"ok\":"@ + truth(c.ok()) + "}"@,
        ]
    } else {
        seq![
            "objects: "@ + dec(c.objects) + " checked, "@ + dec(c.corrupt)
                + " corrupt; snapshots: "@ + dec(c.snapshots) + " checked, "@ + dec(c.missing)
                + " problem(s); refs: "@ + dec(c.bad_refs) + " broken"@,
            if c.ok() {
                "verify OK"@
            } else {
                "verify FAILED"@
            },
        ]
    }
}

/// What is wrong with the objects and the snapshots of a store.
pub open spec fn content_problems(s: StoreView) -> Seq<Seq<char>> {
    corrupt_objects(s, object_list(s)) + broken_snapshots(s, snapshot_list(s))
}

/// What `verify` counts in a store with these branches.
pub open spec fn verify_counts(
    s: StoreView,
    branches: Seq<(Seq<char>, Seq<char>)>,
) -> VerifyCounts {
    VerifyCounts {
        objects: object_list(s).len(),
        corrupt: corrupt_objects(s, object_list(s)).len(),
        snapshots: snapshot_list(s).len(),
        missing: broken_snapshots(s, snapshot_list(s)).len(),
        bad_refs: broken_branches(s, branches).len(),
    }
}

/// What `verify` found.
pub struct Verdict {
    /// What is wrong, one line each.
    pub complaints: Vec<String>,
    /// What is printed, and whether all is well; or why the branches cannot be read.
    pub outcome: Result<(Vec<String>, bool), Error>,
}

/// `v` is what `verify` finds.
pub open spec fn is_verdict(v: Verdict, s: StoreView, as_json: bool) -> bool {
    match branch_list(s) {
        Err(e) => texts(v.complaints@) == content_problems(s) && (v.outcome matches Err(f) && f@
            == e),
        Ok(branches) => {
            let c = verify_counts(s, branches);
            &&& texts(v.complaints@) == content_problems(s) + broken_branches(s, branches)
            &&& v.outcome matches Ok((lines, ok)) && texts(lines@) == verify_lines(c, as_json)
                && ok == c.ok()
        },
    }
}

fn check_objects(store: &Store, hashes: &Vec<String>, complaints: &mut Vec<String>) -> (n: usize)
    requires
        store.wf(),
        forall|i: int|
            0 <= i < hashes@.len() ==> store@.objects.contains_key(#[trigger] texts(hashes@)[i]),
        old(complaints)@.len() == 0,
    ensures
        texts(final(complaints)@) == corrupt_objects(store@, texts(hashes@)),
        n == corrupt_objects(store@, texts(hashes@)).len(),
{
    let ghost all = texts(hashes@);
    let ghost s = store@;
    let mut i: usize = 0;
    assert(all.take(0) =~= Seq::empty());
    assert(texts(complaints@) =~= Seq::empty());
    while i < hashes.len()
        invariant
            store.wf(),
            s == store@,
            all == texts(hashes@),
            forall|i: int| 0 <= i < all.len() ==> s.objects.contains_key(#[trigger] all[i]),
            i <= hashes@.len(),
            texts(complaints@) == corrupt_objects(s, all.take(i as int)),
        decreases hashes@.len() - i,
    {
        let hash = hashes[i].as_str();
        proof {
            assert(all[i as int] == hash@);
            assert(all.take(i + 1).drop_last() =~= all.take(i as int));
            assert(s.objects.contains_key(all[i as int]));
        }
        if let Some(bytes) = store.objects.get(hash) {
            if !same_text(page_hash(bytes.as_slice()).as_str(), hash) {
                let mut m = "verify: object ".to_string();
                m.push_str(hash);
                m.push_str(" content does not match its hash");
                add_line(complaints, m);
            }
        }
        i = i + 1;
    }
    assert(all.take(i as int) =~= all);
    complaints.len()
}

fn check_pages(store: &Store, id: &str, hashes: &Vec<String>, complaints: &mut Vec<String>)
    requires
        store.wf(),
    ensures
        texts(final(complaints)@) == texts(old(complaints)@) + missing_objects(
            store@,
            id@,
            texts(hashes@),
        ),
{
    let ghost all = texts(hashes@);
    let ghost s = store@;
    let ghost before = texts(complaints@);
    let mut i: usize = 0;
    assert(all.take(0) =~= Seq::empty());
    assert(before + missing_objects(s, id@, all.take(0)) =~= before);
    while i < hashes.len()
        invariant
            store.wf(),
            s == store@,
            all == texts(hashes@),
            i <= hashes@.len(),
            texts(complaints@) == before + missing_objects(s, id@, all.take(i as int)),
        decreases hashes@.len() - i,
    {
        let hash = hashes[i].as_str();
        let ghost sofar = missing_objects(s, id@, all.take(i as int));
        proof {
            assert(all[i as int] == hash@);
            assert(all.take(i + 1).drop_last() =~= all.take(i as int));
        }
        if !store.has_object(hash) {
            let mut m = "verify: snapshot ".to_string();
            m.push_str(short(id).as_str());
            m.push_str(" is missing page object ");
            m.push_str(hash);
            let ghost l = m@;
            add_line(complaints, m);
            assert((before + sofar).push(l) =~= before + sofar.push(l));
        }
        i = i + 1;
    }
    assert(all.take(i as int) =~= all);
}

fn check_snapshots(store: &Store, ids: &Vec<String>, complaints: &mut Vec<String>) -> (n: usize)
    requires
        store.wf(),
    ensures
        texts(final(complaints)@) == texts(old(complaints)@) + broken_snapshots(
            store@,
            texts(ids@),
        ),
        n == broken_snapshots(store@, texts(ids@)).len(),
{
    let ghost all = texts(ids@);
    let ghost s = store@;
    let ghost before = texts(complaints@);
    let start: usize = complaints.len();
    let mut i: usize = 0;
    assert(all.take(0) =~= Seq::empty());
    assert(before + broken_snapshots(s, all.take(0)) =~= before);
    while i < ids.len()
        invariant
            store.wf(),
            s == store@,
            all == texts(ids@),
            i <= ids@.len(),
            texts(complaints@) == before + broken_snapshots(s, all.take(i as int)),
        decreases ids@.len() - i,
    {
        let id = ids[i].as_str();
        let ghost sofar = broken_snapshots(s, all.take(i as int));
        proof {
            assert(all[i as int] == id@);
            assert(all.take(i + 1).drop_last() =~= all.take(i as int));
        }
        match store.read_manifest(id) {
            Err(e) => {
                let mut m = "verify: snapshot ".to_string();
                m.push_str(id);
                m.push_str(": ");
                m.push_str(e.message.as_str());
                let ghost l = m@;
                add_line(complaints, m);
                assert((before + sofar).push(l) =~= before + (sofar + seq![l]));
            },
            Ok(m) => {
                check_pages(store, id, &m.page_hashes, complaints);
                assert(before + sofar + missing_objects(s, id@, m@.page_hashes) =~= before + (sofar
                    + missing_objects(s, id@, m@.page_hashes)));
            },
        }
        i = i + 1;
    }
    assert(all.take(i as int) =~= all);
    assert(texts(complaints@).len() == complaints@.len());
    complaints.len() - start
}

fn check_branches(
    store: &Store,
    list: &Vec<(String, String)>,
    complaints: &mut Vec<String>,
) -> (n: usize)
    requires
        store.wf(),
    ensures
        texts(final(complaints)@) == texts(old(complaints)@) + broken_branches(
            store@,
            pair_views(list@),
        ),
        n == broken_branches(store@, pair_views(list@)).len(),
{
    let ghost all = pair_views(list@);
    let ghost s = store@;
    let ghost before = texts(complaints@);
    let start: usize = complaints.len();
    let mut i: usize = 0;
    assert(all.take(0) =~= Seq::empty());
    assert(before + broken_branches(s, all.take(0)) =~= before);
    while i < list.len()
        invariant
            store.wf(),
            s == store@,
            all == pair_views(list@),
            i <= list@.len(),
            texts(complaints@) == before + broken_branches(s, all.take(i as int)),
        decreases list@.len() - i,
    {
        let ghost sofar = broken_branches(s, all.take(i as int));
        proof {
            assert(all[i as int] == (list@[i as int].0@, list@[i as int].1@));
            assert(all.take(i + 1).drop_last() =~= all.take(i as int));
        }
        if !store.has_snapshot(list[i].1.as_str()) {
            let mut m = "verify: branch ".to_string();
            m.push_str(list[i].0.as_str());
            m.push_str(" points at missing snapshot ");
            m.push_str(short(list[i].1.as_str()).as_str());
            let ghost l = m@;
            add_line(complaints, m);
            assert((before + sofar).push(l) =~= before + sofar.push(l));
        }
        i = i + 1;
    }
    assert(all.take(i as int) =~= all);
    assert(texts(complaints@).len() == complaints@.len());
    complaints.len() - start
}

/// What `verify` prints of its counts.
pub fn verify_report(
    objects: usize,
    corrupt: usize,
    snapshots: usize,
    missing: usize,
    bad_refs: usize,
    as_json: bool,
) -> (lines: Vec<String>)
    ensures
        texts(lines@) == verify_lines(
            VerifyCounts {
                objects: objects as nat,
                corrupt: corrupt as nat,
                snapshots: snapshots as nat,
                missing: missing as nat,
                bad_refs: bad_refs as nat,
            },
            as_json,
        ),
{
    let ok = corrupt == 0 && missing == 0 && bad_refs == 0;
    if as_json {
        let mut s = "{\"objects\":".to_string();
        s.push_str(decimal(objects as u64).as_str());
        s.push_str(",\"corrupt\":");
        s.push_str(decimal(corrupt as u64).as_str());
        s.push_str(",\"snapshots\":");
        s.push_str(decimal(snapshots as u64).as_str());
        s.push_str(",\"missing\":");
        s.push_str(decimal(missing as u64).as_str());
        s.push_str(",\"bad_refs\":");
        s.push_str(decimal(bad_refs as u64).as_str());
        s.push_str(",\"ok\":");
        s.push_str(truth_str(ok));
        s.push_str("}");
        one_line(s)
    } else {
        let mut s = "objects: ".to_string();
        s.push_str(decimal(objects as u64).as_str());
        s.push_str(" checked, ");
        s.push_str(decimal(corrupt as u64).as_str());
        s.push_str(" corrupt; snapshots: ");
        s.push_str(decimal(snapshots as u64).as_str());
        s.push_str(" checked, ");
        s.push_str(decimal(missing as u64).as_str());
        s.push_str(" problem(s); refs: ");
        s.push_str(decimal(bad_refs as u64).as_str());
        s.push_str(" broken");
        two_lines(
            s,
            if ok {
                "verify OK".to_string()
            } else {
                "verify FAILED".to_string()
            },
        )
    }
}

proof fn listed_objects_exist(s: StoreView, f: &Files)
    requires
        f.wf(),
        f@ == s.objects,
    ensures
        forall|i: int|
            0 <= i < object_list(s).len() ==> s.objects.contains_key(#[trigger] object_list(s)[i]),
{
    files_listed(f);
    let names = names_of(s.objects);
    assert forall|i: int| 0 <= i < object_list(s).len() implies s.objects.contains_key(
        #[trigger] object_list(s)[i],
    ) by {
        names.lemma_filter_contains_rev(is_object_name(), object_list(s)[i]);
    }
}

/// Hashes every object again, checks every manifest and every branch.
pub fn cmd_verify(store: &Store, as_json: bool) -> (v: Verdict)
    requires
        store.wf(),
    ensures
        is_verdict(v, store@, as_json),
{
    let objects = store.list_objects();
    proof {
        listed_objects_exist(store@, &store.objects);
    }
    let mut complaints: Vec<String> = Vec::new();
    let corrupt: usize = check_objects(store, &objects, &mut complaints);
    let snaps = store.list_snapshots();
    let missing: usize = check_snapshots(store, &snaps, &mut complaints);
    let branches = match store.list_branches() {
        Ok(b) => b,
        Err(e) => {
            return Verdict { complaints, outcome: Err(e) };
        },
    };
    let bad_refs: usize = check_branches(store, &branches, &mut complaints);
    let ok = corrupt == 0 && missing == 0 && bad_refs == 0;
    assert(texts(objects@).len() == objects@.len());
    assert(texts(snaps@).len() == snaps@.len());
    let lines = verify_report(objects.len(), corrupt, snaps.len(), missing, bad_refs, as_json);
    Verdict { complaints, outcome: Ok((lines, ok)) }
}

// ---------------------------------------------------------------------------------------
// gc
// ---------------------------------------------------------------------------------------
/// The page hashes of all the snapshots `ids`, or why the first of them cannot be read.
pub open spec fn live_hashes(s: StoreView, ids: Seq<Seq<char>>) -> Result<Seq<Seq<char>>, ErrorView>
    decreases ids.len(),
{
    if ids.len() == 0 {
        Ok(Seq::empty())
    } else {
        match live_hashes(s, ids.drop_last()) {
            Err(e) => Err(e),
            Ok(before) => match manifest_of(s, ids.last()) {
                Err(e) => Err(e),
                Ok(m) => Ok(before + m.page_hashes),
            },
        }
    }
}

/// May the object under `hash` be removed? It is a finished object, and no snapshot needs it.
pub open spec fn is_garbage(live: Seq<Seq<char>>, hash: Seq<char>) -> bool {
    is_object_name()(hash) && !live.contains(hash)
}

/// The store without the objects that may be removed.
pub open spec fn swept(s: StoreView, live: Seq<Seq<char>>) -> StoreView {
    StoreView {
        objects: Map::new(
            |k: Seq<char>| s.objects.contains_key(k) && !is_garbage(live, k),
            |k: Seq<char>| s.objects[k],
        ),
        ..s
    }
}

/// What `gc` counts.
pub struct GcCounts {
    pub removed: nat,
    pub freed: nat,
    pub kept: nat,
}

/// What `gc` counts among the objects `hashes`.
pub open spec fn gc_counts(s: StoreView, live: Seq<Seq<char>>, hashes: Seq<Seq<char>>) -> GcCounts
    decreases hashes.len(),
{
    if hashes.len() == 0 {
        GcCounts { removed: 0, freed: 0, kept: 0 }
    } else {
        let c = gc_counts(s, live, hashes.drop_last());
        if live.contains(hashes.last()) {
            GcCounts { kept: c.kept + 1, ..c }
        } else {
            GcCounts {
                removed: c.removed + 1,
                freed: c.freed + s.objects[hashes.last()].len(),
                kept: c.kept,
            }
        }
    }
}

/// A byte count, or the largest that 64 bits hold.
pub open spec fn at_most_u64(n: nat) -> nat {
    if n > u64::MAX {
        u64::MAX as nat
    } else {
        n
    }
}

/// What `gc` prints of its counts.
pub open spec fn gc_lines(c: GcCounts, as_json: bool) -> Seq<Seq<char>> {
    if as_json {
        seq![
            "{\"removed\":"@ + dec(c.removed) + ",\"bytes_freed\":"@ + dec(at_most_u64(c.freed))
                + ",\"kept\":"@ + dec(c.kept) + "}"@,
        ]
    } else {
        seq![
            "gc: removed "@ + dec(c.removed) + " unreachable object(s) ("@ + bytes_text(
                at_most_u64(c.freed),
            ) + "), kept "@ + dec(c.kept),
        ]
    }
}

/// What `gc` does: the store without unreachable objects, and what is printed.
pub open spec fn gc_output(s: StoreView, as_json: bool) -> Result<
    (StoreView, Seq<Seq<char>>),
    ErrorView,
> {
    match live_hashes(s, snapshot_list(s)) {
        Err(e) => Err(e),
        Ok(live) => Ok(
            (swept(s, live), gc_lines(gc_counts(s, live, object_list(s)), as_json)),
        ),
    }
}

proof fn live_fails(s: StoreView, ids: Seq<Seq<char>>, i: int)
    requires
        0 <= i <= ids.len(),
        live_hashes(s, ids.take(i)) is Err,
    ensures
        live_hashes(s, ids) == live_hashes(s, ids.take(i)),
    decreases ids.len() - i,
{
    if i < ids.len() {
        assert(ids.take(i + 1).drop_last() =~= ids.take(i));
        live_fails(s, ids, i + 1);
    } else {
        assert(ids.take(i) =~= ids);
    }
}

/// `set` holds exactly the names in `list`.
spec fn same_names(set: FileMap, list: Seq<Seq<char>>) -> bool {
    forall|k: Seq<char>| #[trigger] set.contains_key(k) <==> list.contains(k)
}

fn add_names(set: &mut Files, names: &Vec<String>, Ghost(list): Ghost<Seq<Seq<char>>>)
    requires
        old(set).wf(),
        same_names(old(set)@, list),
    ensures
        final(set).wf(),
        same_names(final(set)@, list + texts(names@)),
{
    let ghost more = texts(names@);
    let mut i: usize = 0;
    assert(list + more.take(0) =~= list);
    while i < names.len()
        invariant
            set.wf(),
            more == texts(names@),
            i <= names@.len(),
            same_names(set@, list + more.take(i as int)),
        decreases names@.len() - i,
    {
        let ghost known = list + more.take(i as int);
        set.put(names[i].as_str(), Vec::new());
        proof {
            let now = list + more.take(i + 1);
            assert(now =~= known.push(more[i as int]));
            assert forall|k: Seq<char>| #[trigger] now.contains(k) <==> known.contains(k) || k
                == more[i as int] by {
                if known.contains(k) {
                    let j = choose|j: int| 0 <= j < known.len() && known[j] == k;
                    assert(now[j] == k);
                }
                if k == more[i as int] {
                    assert(now[known.len() as int] == k);
                }
            }
        }
        i = i + 1;
    }
    assert(more.take(i as int) =~= more);
}

fn collect_live(store: &Store, ids: &Vec<String>) -> (r: Result<Files, Error>)
    requires
        store.wf(),
    ensures
        match r {
            Ok(live) => live.wf() && live_hashes(store@, texts(ids@)) is Ok && same_names(
                live@,
                live_hashes(store@, texts(ids@))->Ok_0,
            ),
            Err(e) => live_hashes(store@, texts(ids@)) == Err::<Seq<Seq<char>>, ErrorView>(e@),
        },
{
    let mut live = Files::new();
    let ghost all = texts(ids@);
    let ghost s = store@;
    let mut i: usize = 0;
    assert(all.take(0) =~= Seq::empty());
    while i < ids.len()
        invariant
            store.wf(),
            s == store@,
            all == texts(ids@),
            i <= ids@.len(),
            live.wf(),
            live_hashes(s, all.take(i as int)) is Ok,
            same_names(live@, live_hashes(s, all.take(i as int))->Ok_0),
        decreases ids@.len() - i,
    {
        proof {
            assert(all[i as int] == ids@[i as int]@);
            assert(all.take(i + 1).drop_last() =~= all.take(i as int));
            if live_hashes(s, all.take(i + 1)) is Err {
                live_fails(s, all, i + 1);
            }
        }
        match store.read_manifest(ids[i].as_str()) {
            Err(e) => {
                return Err(e);
            },
            Ok(m) => {
                add_names(
                    &mut live,
                    &m.page_hashes,
                    Ghost(live_hashes(s, all.take(i as int))->Ok_0),
                );
            },
        }
        i = i + 1;
    }
    assert(all.take(i as int) =~= all);
    Ok(live)
}

/// What `gc` did.
pub struct GcReport {
    pub removed: usize,
    pub freed: u64,
    pub kept: usize,
}

/// The objects after those of `done` that may be removed were removed.
spec fn partly_swept(s: StoreView, live: Seq<Seq<char>>, done: Seq<Seq<char>>) -> FileMap {
    Map::new(
        |k: Seq<char>| s.objects.contains_key(k) && !(done.contains(k) && !live.contains(k)),
        |k: Seq<char>| s.objects[k],
    )
}

fn sweep(
    store: &mut Store,
    hashes: &Vec<String>,
    live: &Files,
    Ghost(list): Ghost<Seq<Seq<char>>>,
) -> (r: GcReport)
    requires
        old(store).wf(),
        live.wf(),
        same_names(live@, list),
        texts(hashes@).no_duplicates(),
        forall|i: int|
            0 <= i < hashes@.len() ==> old(store)@.objects.contains_key(
                #[trigger] texts(hashes@)[i],
            ),
    ensures
        final(store).wf(),
        final(store)@ == (StoreView {
            objects: partly_swept(old(store)@, list, texts(hashes@)),
            ..old(store)@
        }),
        ({
            let c = gc_counts(old(store)@, list, texts(hashes@));
            r.removed == c.removed && r.freed == at_most_u64(c.freed) && r.kept == c.kept
        }),
{
    let ghost all = texts(hashes@);
    let ghost s = store@;
    let mut r = GcReport { removed: 0, freed: 0, kept: 0 };
    let mut i: usize = 0;
    proof {
        assert(all.take(0) =~= Seq::empty());
        assert(store@.objects =~= partly_swept(s, list, all.take(0)));
    }
    while i < hashes.len()
        invariant
            store.wf(),
            live.wf(),
            same_names(live@, list),
            s == old(store)@,
            all == texts(hashes@),
            all.no_duplicates(),
            forall|i: int| 0 <= i < all.len() ==> s.objects.contains_key(#[trigger] all[i]),
            i <= hashes@.len(),
            r.removed + r.kept == i,
            store@ == (StoreView {
                objects: partly_swept(s, list, all.take(i as int)),
                ..s
            }),
            ({
                let c = gc_counts(s, list, all.take(i as int));
                r.removed == c.removed && r.freed == at_most_u64(c.freed) && r.kept == c.kept
            }),
        decreases hashes@.len() - i,
    {
        let hash = hashes[i].as_str();
        let ghost done = all.take(i as int);
        proof {
            assert(all[i as int] == hash@);
            let next = all.take(i + 1);
            assert(next.drop_last() =~= done);
            assert(next =~= done.push(hash@));
            assert(s.objects.contains_key(hash@));
            assert forall|k: Seq<char>| #[trigger] next.contains(k) <==> done.contains(k) || k
                == hash@ by {
                if done.contains(k) {
                    let j = choose|j: int| 0 <= j < done.len() && done[j] == k;
                    assert(next[j] == k);
                }
                if k == hash@ {
                    assert(next[i as int] == k);
                }
            }
            if done.contains(hash@) {
                let j = choose|j: int| 0 <= j < done.len() && done[j] == hash@;
                assert(all[j] == all[i as int]);
            }
        }
        if live.contains(hash) {
            r.kept = r.kept + 1;
            assert(store@.objects =~= partly_swept(s, list, all.take(i + 1)));
        } else {
            if let Some(bytes) = store.objects.get(hash) {
                let n: u64 = bytes.len() as u64;
                r.freed = if r.freed > u64::MAX - n {
                    u64::MAX
                } else {
                    r.freed + n
                };
            }
            let _ = store.remove_object(hash);
            r.removed = r.removed + 1;
            assert(store@.objects =~= partly_swept(s, list, all.take(i + 1)));
        }
        i = i + 1;
    }
    assert(all.take(i as int) =~= all);
    r
}

/// What `gc` prints of its report.
pub fn gc_report(r: &GcReport, as_json: bool) -> (lines: Vec<String>)
    ensures
        texts(lines@) == gc_lines(
            GcCounts { removed: r.removed as nat, freed: r.freed as nat, kept: r.kept as nat },
            as_json,
        ),
{
    let mut s = if as_json {
        "{\"removed\":".to_string()
    } else {
        "gc: removed ".to_string()
    };
    s.push_str(decimal(r.removed as u64).as_str());
    if as_json {
        s.push_str(",\"bytes_freed\":");
        s.push_str(decimal(r.freed).as_str());
        s.push_str(",\"kept\":");
        s.push_str(decimal(r.kept as u64).as_str());
        s.push_str("}");
    } else {
        s.push_str(" unreachable object(s) (");
        s.push_str(human_bytes(r.freed).as_str());
        s.push_str("), kept ");
        s.push_str(decimal(r.kept as u64).as_str());
    }
    one_line(s)
}

proof fn object_list_facts(s: StoreView, f: &Files)
    requires
        f.wf(),
        f@ == s.objects,
    ensures
        object_list(s).no_duplicates(),
        forall|k: Seq<char>| #[trigger]
            object_list(s).contains(k) <==> s.objects.contains_key(k) && is_object_name()(k),
{
    files_listed(f);
    let names = names_of(s.objects);
    let list = object_list(s);
    assert(names.no_duplicates()) by {
        assert forall|i: int, j: int| 0 <= i < names.len() && 0 <= j < names.len() && i
            != j implies names[i] != names[j] by {
            if i < j {
                assert(names[i] != names[j]);
            } else {
                assert(names[j] != names[i]);
            }
        }
    }
    filter_no_duplicates(names, is_object_name());
    assert forall|k: Seq<char>| #[trigger] list.contains(k) <==> s.objects.contains_key(k)
        && is_object_name()(k) by {
        if list.contains(k) {
            names.lemma_filter_contains_rev(is_object_name(), k);
            let i = choose|i: int| 0 <= i < list.len() && list[i] == k;
            names.lemma_filter_pred(is_object_name(), i);
        }
        if s.objects.contains_key(k) && is_object_name()(k) {
            assert(names.contains(k));
            let i = choose|i: int| 0 <= i < names.len() && names[i] == k;
            names.lemma_filter_contains(is_object_name(), i);
        }
    }
}

proof fn filter_no_duplicates(s: Seq<Seq<char>>, pred: spec_fn(Seq<char>) -> bool)
    requires
        s.no_duplicates(),
    ensures
        s.filter(pred).no_duplicates(),
    decreases s.len(),
{
    reveal(Seq::filter);
    if s.len() > 0 {
        let rest = s.drop_last();
        filter_no_duplicates(rest, pred);
        if pred(s.last()) {
            let f = rest.filter(pred);
            assert(!f.contains(s.last())) by {
                if f.contains(s.last()) {
                    rest.lemma_filter_contains_rev(pred, s.last());
                    let i = choose|i: int| 0 <= i < rest.len() && rest[i] == s.last();
                    assert(s[i] == s[s.len() - 1]);
                }
            }
        }
    }
}

/// Removes the objects that no snapshot needs.
pub fn cmd_gc(store: &mut Store, as_json: bool) -> (r: Result<Vec<String>, Error>)
    requires
        old(store).wf(),
    ensures
        final(store).wf(),
        match r {
            Ok(lines) => gc_output(old(store)@, as_json) == Ok::<
                (StoreView, Seq<Seq<char>>),
                ErrorView,
            >((final(store)@, texts(lines@))),
            Err(e) => gc_output(old(store)@, as_json) == Err::<
                (StoreView, Seq<Seq<char>>),
                ErrorView,
            >(e@) && final(store)@ == old(store)@,
        },
{
    let ghost s = store@;
    let snaps = store.list_snapshots();
    let live = match collect_live(store, &snaps) {
        Ok(live) => live,
        Err(e) => {
            return Err(e);
        },
    };
    let ghost list = live_hashes(s, snapshot_list(s))->Ok_0;
    let objects = store.list_objects();
    proof {
        listed_objects_exist(s, &store.objects);
        object_list_facts(s, &store.objects);
    }
    let r = sweep(store, &objects, &live, Ghost(list));
    proof {
        assert(partly_swept(s, list, object_list(s)) =~= swept(s, list).objects);
    }
    Ok(gc_report(&r, as_json))
}

} // verus!
