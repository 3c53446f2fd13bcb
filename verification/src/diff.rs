//! Page-level diff between two database states, attributed to tables.
//!
//! The raw diff compares two lists of page hashes by position. Attribution then gives each
//! differing page to its owner: by where the page landed in the new state, or by the old
//! state for pages that exist only there.

use std::collections::BTreeMap;

use vstd::prelude::*;

use crate::btree::owners::attribute_pages;
use crate::btree::owners::kind_label;
use crate::btree::owners::owner_views;
use crate::btree::owners::owners;
use crate::btree::owners::PageKind;
use crate::btree::owners::PageOwner;
use crate::btree::owners::PageOwnerView;
use crate::dbfile::PageSource;
use crate::dbfile::Pages;
use crate::error::invalid_data;
use crate::error::Error;
use crate::error::ErrorView;
use crate::tally::is_rollup;
use crate::tally::roll_up;
use crate::tally::rollup;
use crate::tally::rollup_exists;
use crate::tally::row_views;
use crate::tally::tags_of;
use crate::tally::RowView;
use crate::tally::Slot;
use crate::tally::Tag;
use crate::text::dec;
use crate::text::decimal;
use crate::text::same_text;
use crate::text::texts;

verus! {

/// How one page differs between two states.
#[derive(Debug, Clone, Copy, PartialEq, Eq, Structural)]
pub enum Change {
    /// Same page number, different content.
    Changed,
    /// The page exists only in the new state.
    Added,
    /// The page exists only in the old state.
    Removed,
}

/// The name of a kind of change.
pub open spec fn change_label(change: Change) -> Seq<char> {
    match change {
        Change::Changed => "changed"@,
        Change::Added => "added"@,
        Change::Removed => "removed"@,
    }
}

impl Change {
    /// The name of the change.
    pub fn label(&self) -> (s: &'static str)
        ensures
            s@ == change_label(*self),
    {
        match self {
            Change::Changed => "changed",
            Change::Added => "added",
            Change::Removed => "removed",
        }
    }
}

/// One differing page.
#[derive(Debug, Clone, Copy, PartialEq, Eq, Structural)]
pub struct PageDelta {
    pub pgno: u32,
    pub change: Change,
}

/// How the pages at position `i` of two hash lists differ, if they do.
pub open spec fn delta_at(old: Seq<Seq<char>>, new: Seq<Seq<char>>, i: int) -> Option<PageDelta> {
    let pgno = (i + 1) as u32;
    if i < old.len() && i < new.len() {
        if old[i] != new[i] {
            Some(PageDelta { pgno, change: Change::Changed })
        } else {
            None
        }
    } else if i < new.len() {
        Some(PageDelta { pgno, change: Change::Added })
    } else {
        Some(PageDelta { pgno, change: Change::Removed })
    }
}

/// The differences at the first `n` positions.
pub open spec fn deltas_upto(old: Seq<Seq<char>>, new: Seq<Seq<char>>, n: nat) -> Seq<PageDelta>
    decreases n,
{
    if n == 0 {
        Seq::empty()
    } else {
        let before = deltas_upto(old, new, (n - 1) as nat);
        match delta_at(old, new, n - 1) {
            None => before,
            Some(d) => before.push(d),
        }
    }
}

/// The number of positions in the longer of two lists.
pub open spec fn longest(old: Seq<Seq<char>>, new: Seq<Seq<char>>) -> nat {
    if old.len() < new.len() {
        new.len()
    } else {
        old.len()
    }
}

/// The differences between two hash lists, by page number.
pub open spec fn deltas(old: Seq<Seq<char>>, new: Seq<Seq<char>>) -> Seq<PageDelta> {
    deltas_upto(old, new, longest(old, new))
}

/// Compares two hash lists position by position. Page numbers are 32 bits wide and count
/// from 1.
pub fn diff_hashes(old: &[String], new: &[String]) -> (r: Vec<PageDelta>)
    ensures
        r@ == deltas(texts(old@), texts(new@)),
{
    let mut r: Vec<PageDelta> = Vec::new();
    let ghost (a, b) = (texts(old@), texts(new@));
    let mut i: usize = 0;
    while i < old.len() || i < new.len()
        invariant
            a == texts(old@),
            b == texts(new@),
            i <= longest(a, b),
            r@ == deltas_upto(a, b, i as nat),
        decreases longest(a, b) - i,
    {
        let pgno: u32 = (i + 1) as u32;
        if i < old.len() && i < new.len() {
            if !same_text(old[i].as_str(), new[i].as_str()) {
                r.push(PageDelta { pgno, change: Change::Changed });
            }
        } else if i < new.len() {
            r.push(PageDelta { pgno, change: Change::Added });
        } else {
            r.push(PageDelta { pgno, change: Change::Removed });
        }
        i = i + 1;
    }
    r
}

// ---------------------------------------------------------------------------------------
// Laws of the positional diff
// ---------------------------------------------------------------------------------------
proof fn deltas_upto_range(old: Seq<Seq<char>>, new: Seq<Seq<char>>, n: nat)
    requires
        n <= longest(old, new) <= u32::MAX,
    ensures
        forall|k: int|
            0 <= k < deltas_upto(old, new, n).len() ==> 1 <= #[trigger] deltas_upto(
                old,
                new,
                n,
            )[k].pgno <= n,
        forall|k: int, l: int|
            0 <= k < l < deltas_upto(old, new, n).len() ==> deltas_upto(old, new, n)[k].pgno
                < deltas_upto(old, new, n)[l].pgno,
        forall|d: PageDelta| #[trigger]
            deltas_upto(old, new, n).contains(d) <==> 1 <= d.pgno <= n && delta_at(
                old,
                new,
                d.pgno - 1,
            ) == Some(d),
    decreases n,
{
    if n > 0 {
        let m = (n - 1) as nat;
        deltas_upto_range(old, new, m);
        let before = deltas_upto(old, new, m);
        let all = deltas_upto(old, new, n);
        assert forall|d: PageDelta| #[trigger] all.contains(d) <==> 1 <= d.pgno <= n && delta_at(
            old,
            new,
            d.pgno - 1,
        ) == Some(d) by {
            assert(before.contains(d) <==> 1 <= d.pgno <= m && delta_at(old, new, d.pgno - 1)
                == Some(d));
            if let Some(e) = delta_at(old, new, n - 1) {
                assert(e.pgno == n);
                assert(all[all.len() - 1] == e);
                if before.contains(d) {
                    let k = choose|k: int| 0 <= k < before.len() && before[k] == d;
                    assert(all[k] == d);
                }
                if all.contains(d) {
                    let k = choose|k: int| 0 <= k < all.len() && all[k] == d;
                    if k < before.len() {
                        assert(before[k] == d);
                    }
                }
            }
        }
    }
}

/// The diff lists exactly the positions that differ, each once, by ascending page number.
pub proof fn diff_is_exact(old: Seq<Seq<char>>, new: Seq<Seq<char>>)
    requires
        longest(old, new) <= u32::MAX,
    ensures
        forall|d: PageDelta| #[trigger]
            deltas(old, new).contains(d) <==> 1 <= d.pgno <= longest(old, new) && delta_at(
                old,
                new,
                d.pgno - 1,
            ) == Some(d),
        forall|k: int, l: int|
            0 <= k < l < deltas(old, new).len() ==> deltas(old, new)[k].pgno < deltas(
                old,
                new,
            )[l].pgno,
{
    deltas_upto_range(old, new, longest(old, new));
}

proof fn deltas_upto_empty(old: Seq<Seq<char>>, new: Seq<Seq<char>>, n: nat)
    requires
        n <= longest(old, new),
    ensures
        deltas_upto(old, new, n).len() == 0 <==> forall|i: int|
            0 <= i < n ==> #[trigger] delta_at(old, new, i) is None,
    decreases n,
{
    if n > 0 {
        deltas_upto_empty(old, new, (n - 1) as nat);
        if delta_at(old, new, n - 1) is None && deltas_upto(old, new, (n - 1) as nat).len() == 0 {
            assert forall|i: int| 0 <= i < n implies #[trigger] delta_at(old, new, i) is None by {
                if i < n - 1 {
                    assert(delta_at(old, new, i) is None);
                }
            }
        }
    }
}

/// The diff is empty exactly where the two states are the same.
pub proof fn diff_empty_iff_equal(old: Seq<Seq<char>>, new: Seq<Seq<char>>)
    ensures
        deltas(old, new).len() == 0 <==> old == new,
{
    deltas_upto_empty(old, new, longest(old, new));
    if deltas(old, new).len() == 0 {
        if old.len() != new.len() {
            assert(delta_at(old, new, longest(old, new) - 1) is Some);
        }
        assert forall|i: int| 0 <= i < old.len() implies old[i] == new[i] by {
            assert(delta_at(old, new, i) is None);
        }
        assert(old =~= new);
    }
}

/// The same change seen from the other side.
pub open spec fn mirrored(d: PageDelta) -> PageDelta {
    PageDelta {
        pgno: d.pgno,
        change: match d.change {
            Change::Changed => Change::Changed,
            Change::Added => Change::Removed,
            Change::Removed => Change::Added,
        },
    }
}

proof fn deltas_upto_mirror(old: Seq<Seq<char>>, new: Seq<Seq<char>>, n: nat)
    requires
        n <= longest(old, new),
    ensures
        deltas_upto(new, old, n) == deltas_upto(old, new, n).map_values(|d: PageDelta| mirrored(d)),
    decreases n,
{
    let f = |d: PageDelta| mirrored(d);
    if n > 0 {
        deltas_upto_mirror(old, new, (n - 1) as nat);
        if let Some(d) = delta_at(old, new, n - 1) {
            assert(delta_at(new, old, n - 1) == Some(mirrored(d)));
        }
    }
    assert(deltas_upto(new, old, n) =~= deltas_upto(old, new, n).map_values(f));
}

/// Swapping the two states swaps additions and removals, and nothing else.
pub proof fn diff_mirrors(old: Seq<Seq<char>>, new: Seq<Seq<char>>)
    ensures
        deltas(new, old) == deltas(old, new).map_values(|d: PageDelta| mirrored(d)),
{
    deltas_upto_mirror(old, new, longest(old, new));
}

// ---------------------------------------------------------------------------------------
// Rollup by owner
// ---------------------------------------------------------------------------------------
/// How many pages of one owner differ.
#[derive(Debug, Clone, PartialEq, Eq)]
pub struct OwnerDelta {
    /// The name of a table or an index, or a bookkeeping label such as `(freelist)`.
    pub owner: String,
    pub changed: u32,
    pub added: u32,
    pub removed: u32,
}

/// The mathematical value of an [`OwnerDelta`].
pub struct OwnerDeltaView {
    pub owner: Seq<char>,
    pub changed: u32,
    pub added: u32,
    pub removed: u32,
}

impl View for OwnerDelta {
    type V = OwnerDeltaView;

    open spec fn view(&self) -> OwnerDeltaView {
        OwnerDeltaView {
            owner: self.owner@,
            changed: self.changed,
            added: self.added,
            removed: self.removed,
        }
    }
}

/// The views of a rollup.
pub open spec fn rollup_views(rows: Seq<OwnerDelta>) -> Seq<OwnerDeltaView> {
    Seq::new(rows.len(), |i: int| rows[i]@)
}

impl OwnerDelta {
    /// The number of pages that differ in any way.
    pub fn total(&self) -> (n: u32)
        requires
            self.changed + self.added + self.removed <= u32::MAX,
        ensures
            n == self.changed + self.added + self.removed,
    {
        self.changed + self.added + self.removed
    }
}

/// The label of a page's owner: the name of the object for b-tree and overflow pages, the
/// kind in parentheses for bookkeeping pages.
pub open spec fn label_of(owner: PageOwnerView) -> Seq<char> {
    if (owner.kind == PageKind::BTree || owner.kind == PageKind::Overflow) && owner.owner is Some {
        owner.owner.unwrap()
    } else {
        "("@ + kind_label(owner.kind) + ")"@
    }
}

/// The label of a page's owner.
pub fn owner_label(owner: &PageOwner) -> (s: String)
    ensures
        s@ == label_of(owner@),
{
    if owner.kind == PageKind::BTree || owner.kind == PageKind::Overflow {
        if let Some(name) = &owner.owner {
            return name.clone();
        }
    }
    let mut s = "(".to_string();
    s.push_str(owner.kind.label());
    s.push_str(")");
    s
}

/// The label of the owner that `map` gives page `pgno`, if it gives one.
pub open spec fn label_in(map: Map<u32, PageOwnerView>, pgno: u32) -> Option<Seq<char>> {
    if map.contains_key(pgno) {
        Some(label_of(map[pgno]))
    } else {
        None
    }
}

/// The label under which `d` is counted: a removed page belongs to whom the old state gave
/// it; any other to whom the new state gives it, or else the old.
pub open spec fn delta_label(
    d: PageDelta,
    old: Map<u32, PageOwnerView>,
    new: Map<u32, PageOwnerView>,
) -> Seq<char> {
    let by_old = match label_in(old, d.pgno) {
        Some(label) => label,
        None => "(unattributed)"@,
    };
    if d.change == Change::Removed {
        by_old
    } else {
        match label_in(new, d.pgno) {
            Some(label) => label,
            None => by_old,
        }
    }
}

/// The counter of a kind of change.
pub open spec fn slot_of(change: Change) -> Slot {
    match change {
        Change::Changed => Slot::First,
        Change::Added => Slot::Second,
        Change::Removed => Slot::Third,
    }
}

/// The differing pages, by label.
pub open spec fn tags(
    ds: Seq<PageDelta>,
    old: Map<u32, PageOwnerView>,
    new: Map<u32, PageOwnerView>,
) -> Seq<Tag> {
    Seq::new(
        ds.len(),
        |i: int| Tag { label: delta_label(ds[i], old, new), slot: slot_of(ds[i].change) },
    )
}

/// Rows of labels as rows of owners.
pub open spec fn as_owner_rows(rows: Seq<RowView>) -> Seq<OwnerDeltaView> {
    Seq::new(
        rows.len(),
        |i: int|
            OwnerDeltaView {
                owner: rows[i].label,
                changed: rows[i].first,
                added: rows[i].second,
                removed: rows[i].third,
            },
    )
}

/// The rows of `ds`, one per owner: names in order, bookkeeping labels last.
pub open spec fn owner_rows(
    ds: Seq<PageDelta>,
    old: Map<u32, PageOwnerView>,
    new: Map<u32, PageOwnerView>,
) -> Seq<OwnerDeltaView> {
    as_owner_rows(rollup(tags(ds, old, new)))
}

// ---------------------------------------------------------------------------------------
// Reports
// ---------------------------------------------------------------------------------------
/// A complete diff.
#[derive(Debug)]
pub struct DiffReport {
    pub old_pages: u32,
    pub new_pages: u32,
    pub page_size: u32,
    pub deltas: Vec<PageDelta>,
    /// One row per owner: names in order, bookkeeping labels last.
    pub by_owner: Vec<OwnerDelta>,
}

/// How many of `ds` are of kind `change`.
pub open spec fn count_change(ds: Seq<PageDelta>, change: Change) -> nat
    decreases ds.len(),
{
    if ds.len() == 0 {
        0
    } else {
        count_change(ds.drop_last(), change) + if ds.last().change == change {
            1nat
        } else {
            0nat
        }
    }
}

fn count_of(ds: &Vec<PageDelta>, change: Change) -> (n: usize)
    ensures
        n == count_change(ds@, change),
{
    let mut n: usize = 0;
    let mut i: usize = 0;
    while i < ds.len()
        invariant
            n <= i <= ds@.len(),
            n == count_change(ds@.take(i as int), change),
        decreases ds@.len() - i,
    {
        assert(ds@.take(i + 1).drop_last() =~= ds@.take(i as int));
        if ds[i].change == change {
            n = n + 1;
        }
        i = i + 1;
    }
    assert(ds@.take(i as int) =~= ds@);
    n
}

impl DiffReport {
    /// The number of pages whose content differs.
    pub fn total_changed(&self) -> (n: u32)
        ensures
            n == count_change(self.deltas@, Change::Changed) as u32,
    {
        count_of(&self.deltas, Change::Changed) as u32
    }

    /// The number of pages that only the new state has.
    pub fn total_added(&self) -> (n: u32)
        ensures
            n == count_change(self.deltas@, Change::Added) as u32,
    {
        count_of(&self.deltas, Change::Added) as u32
    }

    /// The number of pages that only the old state has.
    pub fn total_removed(&self) -> (n: u32)
        ensures
            n == count_change(self.deltas@, Change::Removed) as u32,
    {
        count_of(&self.deltas, Change::Removed) as u32
    }

    /// Do the two states agree in every page?
    pub fn is_empty(&self) -> (r: bool)
        ensures
            r == (self.deltas@.len() == 0),
    {
        self.deltas.len() == 0
    }
}

/// Every difference is a change, an addition or a removal.
pub proof fn totals_add_up(ds: Seq<PageDelta>)
    ensures
        count_change(ds, Change::Changed) + count_change(ds, Change::Added) + count_change(
            ds,
            Change::Removed,
        ) == ds.len(),
    decreases ds.len(),
{
    if ds.len() > 0 {
        totals_add_up(ds.drop_last());
    }
}

/// The mathematical value of a [`DiffReport`].
pub struct DiffReportView {
    pub old_pages: u32,
    pub new_pages: u32,
    pub page_size: u32,
    pub deltas: Seq<PageDelta>,
    pub by_owner: Seq<OwnerDeltaView>,
}

impl View for DiffReport {
    type V = DiffReportView;

    open spec fn view(&self) -> DiffReportView {
        DiffReportView {
            old_pages: self.old_pages,
            new_pages: self.new_pages,
            page_size: self.page_size,
            deltas: self.deltas@,
            by_owner: rollup_views(self.by_owner@),
        }
    }
}

/// The diff of two states with these hashes and these owners.
pub open spec fn report_of(
    old_hashes: Seq<Seq<char>>,
    new_hashes: Seq<Seq<char>>,
    page_size: u32,
    old: Map<u32, PageOwnerView>,
    new: Map<u32, PageOwnerView>,
) -> DiffReportView {
    DiffReportView {
        old_pages: old_hashes.len() as u32,
        new_pages: new_hashes.len() as u32,
        page_size,
        deltas: deltas(old_hashes, new_hashes),
        by_owner: owner_rows(deltas(old_hashes, new_hashes), old, new),
    }
}

/// What is said of two states with different page sizes.
pub open spec fn size_mismatch(old: u32, new: u32) -> ErrorView {
    invalid_data(
        "page size differs ("@ + dec(old as nat) + " vs "@ + dec(new as nat)
            + "): states are not page-comparable (VACUUM or rebuilt file?)"@,
    )
}

/// The diff of two page sources with these hashes, or why they cannot be compared: they
/// differ in page size, or the pages of one of them cannot be attributed.
pub open spec fn compared(
    old: Pages,
    new: Pages,
    old_hashes: Seq<Seq<char>>,
    new_hashes: Seq<Seq<char>>,
) -> Result<DiffReportView, ErrorView> {
    if old.header.page_size != new.header.page_size {
        Err(size_mismatch(old.header.page_size, new.header.page_size))
    } else {
        match owners(new) {
            Err(e) => Err(e),
            Ok(new_map) => match owners(old) {
                Err(e) => Err(e),
                Ok(old_map) => Ok(
                    report_of(
                        old_hashes,
                        new_hashes,
                        old.header.page_size,
                        old_map,
                        new_map,
                    ),
                ),
            },
        }
    }
}

fn lookup_label(map: &BTreeMap<u32, PageOwner>, pgno: u32) -> (r: Option<String>)
    ensures
        match r {
            None => label_in(owner_views(map@), pgno) is None,
            Some(s) => label_in(owner_views(map@), pgno) == Some(s@),
        },
{
    match map.get(&pgno) {
        None => None,
        Some(o) => Some(owner_label(o)),
    }
}

fn label_delta(
    d: &PageDelta,
    old: &BTreeMap<u32, PageOwner>,
    new: &BTreeMap<u32, PageOwner>,
) -> (s: String)
    ensures
        s@ == delta_label(*d, owner_views(old@), owner_views(new@)),
{
    if d.change != Change::Removed {
        if let Some(label) = lookup_label(new, d.pgno) {
            return label;
        }
    }
    match lookup_label(old, d.pgno) {
        Some(label) => label,
        None => "(unattributed)".to_string(),
    }
}

fn slot_for(change: Change) -> (s: Slot)
    ensures
        s == slot_of(change),
{
    match change {
        Change::Changed => Slot::First,
        Change::Added => Slot::Second,
        Change::Removed => Slot::Third,
    }
}

/// The rows of `deltas`, one per owner, by the owners that the two maps give.
pub fn rows_by_owner(
    deltas: &Vec<PageDelta>,
    old: &BTreeMap<u32, PageOwner>,
    new: &BTreeMap<u32, PageOwner>,
) -> (out: Vec<OwnerDelta>)
    ensures
        rollup_views(out@) == owner_rows(deltas@, owner_views(old@), owner_views(new@)),
        exists|rows: Seq<RowView>|
            rollup_views(out@) == as_owner_rows(rows) && is_rollup(
                rows,
                tags(deltas@, owner_views(old@), owner_views(new@)),
            ),
{
    let ghost wanted = tags(deltas@, owner_views(old@), owner_views(new@));
    let mut items: Vec<(String, Slot)> = Vec::new();
    let mut i: usize = 0;
    while i < deltas.len()
        invariant
            i == items@.len() <= deltas@.len(),
            wanted == tags(deltas@, owner_views(old@), owner_views(new@)),
            forall|j: int| 0 <= j < i ==> #[trigger] tags_of(items@)[j] == wanted[j],
        decreases deltas@.len() - i,
    {
        let ghost before = tags_of(items@);
        let label = label_delta(&deltas[i], old, new);
        items.push((label, slot_for(deltas[i].change)));
        assert forall|j: int| 0 <= j < i + 1 implies #[trigger] tags_of(items@)[j] == wanted[j] by {
            if j < i {
                assert(tags_of(items@)[j] == before[j]);
            }
        }
        i = i + 1;
    }
    assert(tags_of(items@) =~= wanted);
    let rows = roll_up(&items);
    let mut out: Vec<OwnerDelta> = Vec::new();
    let ghost all = owner_rows(deltas@, owner_views(old@), owner_views(new@));
    let mut k: usize = 0;
    assert(rollup_views(out@) =~= all.take(0));
    while k < rows.len()
        invariant
            k <= rows@.len(),
            all == owner_rows(deltas@, owner_views(old@), owner_views(new@)),
            row_views(rows@) == rollup(tags(deltas@, owner_views(old@), owner_views(new@))),
            all.len() == rows@.len(),
            rollup_views(out@) == all.take(k as int),
        decreases rows@.len() - k,
    {
        let ghost before = rollup_views(out@);
        assert(row_views(rows@)[k as int] == rows@[k as int]@);
        out.push(
            OwnerDelta {
                owner: rows[k].label.clone(),
                changed: rows[k].first,
                added: rows[k].second,
                removed: rows[k].third,
            },
        );
        assert(rollup_views(out@) =~= before.push(all[k as int]));
        assert(all.take(k + 1) =~= before.push(all[k as int]));
        k = k + 1;
    }
    assert(all.take(k as int) =~= all);
    proof {
        rollup_exists(wanted);
        assert(rollup_views(out@) == as_owner_rows(rollup(wanted)));
    }
    out
}

/// Compares two page sources and attributes every differing page. Both must have the same
/// page size: a file can only change it by being rewritten as a whole. Where they have not, no
/// page is read.
pub fn diff_sources<A: PageSource, B: PageSource>(
    was: &mut A,
    now: &mut B,
    old_hashes: &[String],
    new_hashes: &[String],
) -> (r: Result<DiffReport, Error>)
    requires
        old(was).wf(),
        old(now).wf(),
    ensures
        final(was).wf() && final(was).pages() == old(was).pages(),
        final(now).wf() && final(now).pages() == old(now).pages(),
        old(was).pages().header.page_size != old(now).pages().header.page_size ==> {
            &&& final(was).reads() == old(was).reads()
            &&& final(now).reads() == old(now).reads()
        },
        ({
            let d = compared(
                old(was).pages(),
                old(now).pages(),
                texts(old_hashes@),
                texts(new_hashes@),
            );
            match r {
                Ok(report) => d == Ok::<DiffReportView, ErrorView>(report@) && exists|
                    rows: Seq<RowView>,
                |
                    report@.by_owner == as_owner_rows(rows) && is_rollup(
                        rows,
                        tags(
                            report@.deltas,
                            owners(old(was).pages())->Ok_0,
                            owners(old(now).pages())->Ok_0,
                        ),
                    ),
                Err(e) => d == Err::<DiffReportView, ErrorView>(e@),
            }
        }),
{
    let old_size: u32 = was.page_size();
    let new_size: u32 = now.page_size();
    if old_size != new_size {
        let mut m = "page size differs (".to_string();
        m.push_str(decimal(old_size as u64).as_str());
        m.push_str(" vs ");
        m.push_str(decimal(new_size as u64).as_str());
        m.push_str("): states are not page-comparable (VACUUM or rebuilt file?)");
        return Err(Error::invalid_data(m));
    }
    let deltas = diff_hashes(old_hashes, new_hashes);
    let new_map = match attribute_pages(now) {
        Ok(map) => map,
        Err(e) => {
            return Err(e);
        },
    };
    let old_map = match attribute_pages(was) {
        Ok(map) => map,
        Err(e) => {
            return Err(e);
        },
    };
    let by_owner = rows_by_owner(&deltas, &old_map, &new_map);
    Ok(
        DiffReport {
            old_pages: old_hashes.len() as u32,
            new_pages: new_hashes.len() as u32,
            page_size: old_size,
            deltas,
            by_owner,
        },
    )
}

} // verus!
