//! What a diff is, said of the two states that it compares.

use vstd::prelude::*;

use crate::btree::PageKind;
use crate::btree::owners::PageOwnerView;
use crate::diff::count_change;
use crate::diff::delta_label;
use crate::diff::deltas;
use crate::diff::deltas_upto;
use crate::diff::diff_is_exact;
use crate::diff::label_of;
use crate::diff::longest;
use crate::diff::owner_rows;
use crate::diff::tags;
use crate::diff::Change;
use crate::diff::PageDelta;
use crate::tally::label_le;
use crate::tally::rollup;
use crate::tally::rollup_exists;
use crate::tally::row_of;
use crate::tally::tagged;
use crate::tally::tally;
use crate::tally::Slot;
use crate::tally::Tag;

verus! {

// ---------------------------------------------------------------------------------------
// Which pages differ
// ---------------------------------------------------------------------------------------
/// Page `p` is in the diff as changed exactly where both states have it and its hashes differ,
/// as added where only the new state has it, and as removed where only the old one has.
pub proof fn diff_tells_changes_apart(old: Seq<Seq<char>>, new: Seq<Seq<char>>, p: u32)
    requires
        old.len() <= u32::MAX,
        new.len() <= u32::MAX,
    ensures
        deltas(old, new).contains(PageDelta { pgno: p, change: Change::Changed }) <==> 1 <= p
            <= old.len() && p <= new.len() && old[p - 1] != new[p - 1],
        deltas(old, new).contains(PageDelta { pgno: p, change: Change::Added }) <==> old.len() < p
            <= new.len(),
        deltas(old, new).contains(PageDelta { pgno: p, change: Change::Removed }) <==> new.len() < p
            <= old.len(),
{
    diff_is_exact(old, new);
}

proof fn upto_is_short(old: Seq<Seq<char>>, new: Seq<Seq<char>>, n: nat)
    ensures
        deltas_upto(old, new, n).len() <= n,
    decreases n,
{
    if n > 0 {
        upto_is_short(old, new, (n - 1) as nat);
    }
}

/// A diff lists no more pages than the longer state has.
pub proof fn no_more_deltas_than_pages(old: Seq<Seq<char>>, new: Seq<Seq<char>>)
    ensures
        deltas(old, new).len() <= old.len() || deltas(old, new).len() <= new.len(),
{
    upto_is_short(old, new, longest(old, new));
}

// ---------------------------------------------------------------------------------------
// Whose pages differ
// ---------------------------------------------------------------------------------------
/// The label of an owner is the name of the object, for the pages of its tree and for those it
/// spills into; pages of no object go by their kind, in parentheses.
pub proof fn labels_name_the_owner(name: Seq<char>)
    ensures
        label_of(PageOwnerView { kind: PageKind::BTree, owner: Some(name) }) == name,
        label_of(PageOwnerView { kind: PageKind::Overflow, owner: Some(name) }) == name,
        label_of(PageOwnerView { kind: PageKind::Freelist, owner: None }) == "(freelist)"@,
        label_of(PageOwnerView { kind: PageKind::PtrMap, owner: None }) == "(ptrmap)"@,
        label_of(PageOwnerView { kind: PageKind::LockByte, owner: None }) == "(lockbyte)"@,
        label_of(PageOwnerView { kind: PageKind::Unattributed, owner: None }) == "(unattributed)"@,
{
    reveal_strlit("(");
    reveal_strlit(")");
    reveal_strlit("freelist");
    reveal_strlit("(freelist)");
    reveal_strlit("ptrmap");
    reveal_strlit("(ptrmap)");
    reveal_strlit("lockbyte");
    reveal_strlit("(lockbyte)");
    reveal_strlit("unattributed");
    reveal_strlit("(unattributed)");
    assert("("@ + "freelist"@ + ")"@ =~= "(freelist)"@);
    assert("("@ + "ptrmap"@ + ")"@ =~= "(ptrmap)"@);
    assert("("@ + "lockbyte"@ + ")"@ =~= "(lockbyte)"@);
    assert("("@ + "unattributed"@ + ")"@ =~= "(unattributed)"@);
}

/// A page that is there in the new state is counted under its owner there, whoever owned it in
/// the old state; a page that was removed is counted under its owner in the old state, whoever
/// owns its number in the new one.
pub proof fn pages_count_for_whom_they_landed_with(
    d: PageDelta,
    old: Map<u32, PageOwnerView>,
    new: Map<u32, PageOwnerView>,
    other: Map<u32, PageOwnerView>,
)
    ensures
        d.change != Change::Removed && new.contains_key(d.pgno) ==> delta_label(d, old, new)
            == label_of(new[d.pgno]) && delta_label(d, other, new) == delta_label(d, old, new),
        d.change == Change::Removed && old.contains_key(d.pgno) ==> delta_label(d, old, new)
            == label_of(old[d.pgno]) && delta_label(d, old, other) == delta_label(d, old, new),
        d.change != Change::Removed && !new.contains_key(d.pgno) && old.contains_key(d.pgno)
            ==> delta_label(d, old, new) == label_of(old[d.pgno]),
        !new.contains_key(d.pgno) && !old.contains_key(d.pgno) ==> delta_label(d, old, new)
            == "(unattributed)"@,
{
}

/// The differences of kind `change` that are counted under `label`.
pub open spec fn counted(
    ds: Seq<PageDelta>,
    old: Map<u32, PageOwnerView>,
    new: Map<u32, PageOwnerView>,
    label: Seq<char>,
    change: Change,
) -> Seq<PageDelta> {
    ds.filter(|d: PageDelta| d.change == change && delta_label(d, old, new) == label)
}

proof fn tally_counts(
    ds: Seq<PageDelta>,
    old: Map<u32, PageOwnerView>,
    new: Map<u32, PageOwnerView>,
    label: Seq<char>,
)
    ensures
        tally(tags(ds, old, new), label, Slot::First) == counted(
            ds,
            old,
            new,
            label,
            Change::Changed,
        ).len(),
        tally(tags(ds, old, new), label, Slot::Second) == counted(
            ds,
            old,
            new,
            label,
            Change::Added,
        ).len(),
        tally(tags(ds, old, new), label, Slot::Third) == counted(
            ds,
            old,
            new,
            label,
            Change::Removed,
        ).len(),
    decreases ds.len(),
{
    reveal(Seq::filter);
    if ds.len() > 0 {
        tally_counts(ds.drop_last(), old, new, label);
        let ts = tags(ds, old, new);
        assert(ts.drop_last() =~= tags(ds.drop_last(), old, new));
        assert(ts.last() == ts[ds.len() - 1]);
    }
}

/// Each row of a diff counts what it says: so many pages of its owner changed, so many were
/// added and so many removed.
pub proof fn diff_rows_count_their_pages(
    ds: Seq<PageDelta>,
    old: Map<u32, PageOwnerView>,
    new: Map<u32, PageOwnerView>,
    i: int,
)
    requires
        ds.len() <= u32::MAX,
        0 <= i < owner_rows(ds, old, new).len(),
    ensures
        ({
            let row = owner_rows(ds, old, new)[i];
            &&& row.changed == counted(ds, old, new, row.owner, Change::Changed).len()
            &&& row.added == counted(ds, old, new, row.owner, Change::Added).len()
            &&& row.removed == counted(ds, old, new, row.owner, Change::Removed).len()
            &&& row.changed + row.added + row.removed > 0
        }),
{
    let ts = tags(ds, old, new);
    let row = owner_rows(ds, old, new)[i];
    rollup_exists(ts);
    assert(rollup(ts)[i] == row_of(ts, rollup(ts)[i].label));
    tally_counts(ds, old, new, row.owner);
    tally_is_bounded(ts, row.owner);
    assert(tagged(ts, row.owner));
    tagged_is_counted(ts, row.owner);
}

proof fn tally_is_bounded(ts: Seq<Tag>, label: Seq<char>)
    ensures
        tally(ts, label, Slot::First) <= ts.len(),
        tally(ts, label, Slot::Second) <= ts.len(),
        tally(ts, label, Slot::Third) <= ts.len(),
    decreases ts.len(),
{
    if ts.len() > 0 {
        tally_is_bounded(ts.drop_last(), label);
    }
}

proof fn tagged_is_counted(ts: Seq<Tag>, label: Seq<char>)
    requires
        tagged(ts, label),
    ensures
        tally(ts, label, Slot::First) + tally(ts, label, Slot::Second) + tally(
            ts,
            label,
            Slot::Third,
        ) > 0,
    decreases ts.len(),
{
    let i = choose|i: int| 0 <= i < ts.len() && (#[trigger] ts[i]).label == label;
    if i < ts.len() - 1 {
        assert(ts.drop_last()[i].label == label);
        tagged_is_counted(ts.drop_last(), label);
    }
}

/// Every page that differs has its owner listed, once: names before labels in parentheses.
pub proof fn every_difference_is_listed(
    ds: Seq<PageDelta>,
    old: Map<u32, PageOwnerView>,
    new: Map<u32, PageOwnerView>,
    k: int,
)
    requires
        0 <= k < ds.len(),
    ensures
        exists|i: int|
            0 <= i < owner_rows(ds, old, new).len() && (#[trigger] owner_rows(
                ds,
                old,
                new,
            )[i]).owner == delta_label(ds[k], old, new),
        forall|i: int, j: int|
            0 <= i < j < owner_rows(ds, old, new).len() ==> (#[trigger] owner_rows(
                ds,
                old,
                new,
            )[i]).owner != (#[trigger] owner_rows(ds, old, new)[j]).owner,
        forall|i: int, j: int|
            0 <= i < j < owner_rows(ds, old, new).len() && (#[trigger] owner_rows(
                ds,
                old,
                new,
            )[j]).owner[0] != '(' && owner_rows(ds, old, new)[j].owner.len() > 0 ==> !((
            #[trigger] owner_rows(ds, old, new)[i]).owner.len() > 0 && owner_rows(
                ds,
                old,
                new,
            )[i].owner[0] == '('),
{
    let ts = tags(ds, old, new);
    let rows = owner_rows(ds, old, new);
    rollup_exists(ts);
    assert(ts[k].label == delta_label(ds[k], old, new));
    assert(tagged(ts, ts[k].label));
    let i = choose|i: int| 0 <= i < rollup(ts).len() && rollup(ts)[i].label == ts[k].label;
    assert(rows[i].owner == ts[k].label);
    assert forall|i: int, j: int| 0 <= i < j < rows.len() implies (#[trigger] rows[i]).owner != (
    #[trigger] rows[j]).owner by {
        assert(rollup(ts)[i].label != rollup(ts)[j].label);
    }
    assert forall|i: int, j: int|
        0 <= i < j < rows.len() && (#[trigger] rows[j]).owner[0] != '(' && rows[j].owner.len()
            > 0 implies !((#[trigger] rows[i]).owner.len() > 0 && rows[i].owner[0] == '(') by {
        assert(label_le(rollup(ts)[i].label, rollup(ts)[j].label));
    }
}

/// The totals of a diff are the numbers of its changes, additions and removals.
pub proof fn totals_count_the_kinds(ds: Seq<PageDelta>, change: Change)
    ensures
        count_change(ds, change) == ds.filter(|d: PageDelta| d.change == change).len(),
    decreases ds.len(),
{
    reveal(Seq::filter);
    if ds.len() > 0 {
        totals_count_the_kinds(ds.drop_last(), change);
    }
}

} // verus!
