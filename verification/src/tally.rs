//! Counting labelled items: one row per label, with three counters.

use vstd::prelude::*;

use crate::order::name_le;
use crate::order::name_le_total;
use crate::order::name_le_transitive;
use crate::order::name_not_after;
use crate::order::strictly;
use crate::order::strictly_unique;
use crate::text::begins;
use crate::text::begins_with;
use crate::text::same_text;

verus! {

/// One of the three counters of a row.
#[derive(Debug, Clone, Copy, PartialEq, Eq, Structural)]
pub enum Slot {
    First,
    Second,
    Third,
}

/// The counters of one label.
#[derive(Debug, Clone, PartialEq, Eq)]
pub struct Row {
    pub label: String,
    pub first: u32,
    pub second: u32,
    pub third: u32,
}

/// The mathematical value of a [`Row`].
pub struct RowView {
    pub label: Seq<char>,
    pub first: u32,
    pub second: u32,
    pub third: u32,
}

impl View for Row {
    type V = RowView;

    open spec fn view(&self) -> RowView {
        RowView {
            label: self.label@,
            first: self.first,
            second: self.second,
            third: self.third,
        }
    }
}

/// The views of a list of rows.
pub open spec fn row_views(rows: Seq<Row>) -> Seq<RowView> {
    Seq::new(rows.len(), |i: int| rows[i]@)
}

/// An item to be counted.
pub struct Tag {
    pub label: Seq<char>,
    pub slot: Slot,
}

/// How many of `tags` have this label and go to this slot.
pub open spec fn tally(tags: Seq<Tag>, label: Seq<char>, slot: Slot) -> nat
    decreases tags.len(),
{
    if tags.len() == 0 {
        0
    } else {
        tally(tags.drop_last(), label, slot) + if tags.last().label == label
            && tags.last().slot == slot {
            1nat
        } else {
            0nat
        }
    }
}

/// `n`, or the largest number that 32 bits hold.
pub open spec fn at_most_u32(n: nat) -> u32 {
    if n > u32::MAX {
        u32::MAX
    } else {
        n as u32
    }
}

/// The order of labels: names first, labels in parentheses last, each by their bytes.
pub open spec fn label_le(a: Seq<char>, b: Seq<char>) -> bool {
    if begins(a, '(') != begins(b, '(') {
        begins(b, '(')
    } else {
        name_le(a, b)
    }
}

proof fn label_le_total(a: Seq<char>, b: Seq<char>)
    ensures
        label_le(a, b) || label_le(b, a),
        label_le(a, b) && label_le(b, a) ==> a == b,
        label_le(a, a),
{
    name_le_total(a, b);
    name_le_total(a, a);
}

proof fn label_le_transitive(a: Seq<char>, b: Seq<char>, c: Seq<char>)
    requires
        label_le(a, b),
        label_le(b, c),
    ensures
        label_le(a, c),
{
    if begins(a, '(') == begins(b, '(') && begins(b, '(') == begins(c, '(') {
        name_le_transitive(a, b, c);
    }
}

fn label_not_after(a: &str, b: &str) -> (r: bool)
    ensures
        r == label_le(a@, b@),
{
    let x = begins_with(a, '(');
    let y = begins_with(b, '(');
    if x != y {
        y
    } else {
        name_not_after(a, b)
    }
}

/// The counts of `tags` under `label`.
pub open spec fn row_of(tags: Seq<Tag>, label: Seq<char>) -> RowView {
    RowView {
        label,
        first: at_most_u32(tally(tags, label, Slot::First)),
        second: at_most_u32(tally(tags, label, Slot::Second)),
        third: at_most_u32(tally(tags, label, Slot::Third)),
    }
}

/// `label` is one of the labels of `tags`.
pub open spec fn tagged(tags: Seq<Tag>, label: Seq<char>) -> bool {
    exists|i: int| 0 <= i < tags.len() && (#[trigger] tags[i]).label == label
}

/// The labels of `rows`.
pub open spec fn labels_of(rows: Seq<RowView>) -> Seq<Seq<char>> {
    Seq::new(rows.len(), |i: int| rows[i].label)
}

/// `rows` is in the order of labels, no label occurring twice.
pub open spec fn rows_ordered(rows: Seq<RowView>) -> bool {
    forall|i: int, j: int|
        0 <= i < j < rows.len() ==> label_le(#[trigger] rows[i].label, #[trigger] rows[j].label)
            && rows[i].label != rows[j].label
}

/// `rows` has one row for each label of `tags`, with its counts, in the order of labels.
pub open spec fn is_rollup(rows: Seq<RowView>, tags: Seq<Tag>) -> bool {
    &&& rows_ordered(rows)
    &&& forall|i: int|
        0 <= i < rows.len() ==> (#[trigger] rows[i]) == row_of(tags, rows[i].label) && tagged(
            tags,
            rows[i].label,
        )
    &&& forall|label: Seq<char>| #[trigger]
        tagged(tags, label) ==> exists|i: int| 0 <= i < rows.len() && rows[i].label == label
}

proof fn tally_push(tags: Seq<Tag>, t: Tag, label: Seq<char>)
    ensures
        forall|c: Slot| #[trigger]
            tally(tags.push(t), label, c) == tally(tags, label, c) + if t.label == label
                && t.slot == c {
                1nat
            } else {
                0nat
            },
        tagged(tags.push(t), label) <==> tagged(tags, label) || t.label == label,
{
    let more = tags.push(t);
    assert(more.drop_last() =~= tags);
    if tagged(tags, label) {
        let i = choose|i: int| 0 <= i < tags.len() && (#[trigger] tags[i]).label == label;
        assert(more[i].label == label);
    }
    if t.label == label {
        assert(more[tags.len() as int].label == label);
    }
    if tagged(more, label) {
        let i = choose|i: int| 0 <= i < more.len() && (#[trigger] more[i]).label == label;
        if i < tags.len() {
            assert(tags[i].label == label);
        }
    }
}

proof fn tally_untagged(tags: Seq<Tag>, label: Seq<char>, c: Slot)
    requires
        !tagged(tags, label),
    ensures
        tally(tags, label, c) == 0,
    decreases tags.len(),
{
    if tags.len() > 0 {
        assert(tags[tags.len() - 1].label != label);
        assert forall|i: int| 0 <= i < tags.drop_last().len() implies (
        #[trigger] tags.drop_last()[i]).label != label by {
            assert(tags[i].label != label);
        }
        tally_untagged(tags.drop_last(), label, c);
    }
}

fn increment(n: u32) -> (r: u32)
    ensures
        forall|k: nat| n == #[trigger] at_most_u32(k) ==> r == at_most_u32(k + 1),
{
    if n < u32::MAX {
        n + 1
    } else {
        n
    }
}

/// One more item under a label that has a row: the row is counted up, all others stay.
proof fn rollup_bumps(before: Seq<RowView>, done: Seq<Tag>, t: Tag, at: int)
    requires
        is_rollup(before, done),
        0 <= at < before.len(),
        before[at].label == t.label,
    ensures
        is_rollup(before.update(at, row_of(done.push(t), t.label)), done.push(t)),
{
    let more = done.push(t);
    let after = before.update(at, row_of(more, t.label));
    assert forall|l: Seq<char>| #[trigger] tagged(more, l) <==> tagged(done, l) || l
        == t.label by {
        tally_push(done, t, l);
    }
    assert forall|i: int, j: int| 0 <= i < j < after.len() implies label_le(
        #[trigger] after[i].label,
        #[trigger] after[j].label,
    ) && after[i].label != after[j].label by {
        assert(after[i].label == before[i].label && after[j].label == before[j].label);
    }
    assert forall|i: int| 0 <= i < after.len() implies (#[trigger] after[i]) == row_of(
        more,
        after[i].label,
    ) && tagged(more, after[i].label) by {
        tally_push(done, t, before[i].label);
        if i < at {
            assert(before[i].label != before[at].label);
        } else if i > at {
            assert(before[at].label != before[i].label);
        }
    }
    assert forall|l: Seq<char>| #[trigger] tagged(more, l) implies exists|i: int|
        0 <= i < after.len() && after[i].label == l by {
        if l == t.label {
            assert(after[at].label == l);
        } else {
            assert(tagged(done, l));
            let i = choose|i: int| 0 <= i < before.len() && before[i].label == l;
            assert(after[i].label == l);
        }
    }
}

/// One item under a label that has no row: a row is put where the order of labels wants it.
proof fn rollup_inserts(before: Seq<RowView>, done: Seq<Tag>, t: Tag, at: int)
    requires
        is_rollup(before, done),
        0 <= at <= before.len(),
        forall|j: int| 0 <= j < at ==> !label_le(t.label, #[trigger] before[j].label),
        forall|j: int| at <= j < before.len() ==> label_le(t.label, #[trigger] before[j].label),
        at < before.len() ==> before[at].label != t.label,
    ensures
        is_rollup(before.insert(at, row_of(done.push(t), t.label)), done.push(t)),
        row_of(done.push(t), t.label) == (RowView {
            label: t.label,
            first: if t.slot == Slot::First {
                1
            } else {
                0
            },
            second: if t.slot == Slot::Second {
                1
            } else {
                0
            },
            third: if t.slot == Slot::Third {
                1
            } else {
                0
            },
        }),
{
    let more = done.push(t);
    let label = t.label;
    let after = before.insert(at, row_of(more, label));
    assert forall|l: Seq<char>| #[trigger] tagged(more, l) <==> tagged(done, l) || l == label by {
        tally_push(done, t, l);
    }
    assert forall|j: int| 0 <= j < before.len() implies (#[trigger] before[j]).label != label by {
        label_le_total(label, before[j].label);
        if j > at && before[j].label == label {
            label_le_total(before[at].label, label);
            assert(label_le(before[at].label, before[j].label));
        }
    }
    assert forall|j: int| 0 <= j < before.len() implies (#[trigger] before[j]) == row_of(
        more,
        before[j].label,
    ) by {
        tally_push(done, t, before[j].label);
    }
    if tagged(done, label) {
        let i = choose|i: int| 0 <= i < before.len() && before[i].label == label;
        assert(before[i].label != label);
    }
    tally_untagged(done, label, Slot::First);
    tally_untagged(done, label, Slot::Second);
    tally_untagged(done, label, Slot::Third);
    tally_push(done, t, label);
    assert forall|i: int, j: int| 0 <= i < j < after.len() implies label_le(
        #[trigger] after[i].label,
        #[trigger] after[j].label,
    ) && after[i].label != after[j].label by {
        let a = if i < at {
            i
        } else {
            i - 1
        };
        let b = if j < at {
            j
        } else {
            j - 1
        };
        if i == at {
            assert(after[j] == before[b]);
        } else if j == at {
            assert(after[i] == before[a]);
            label_le_total(label, before[a].label);
        } else {
            assert(after[i] == before[a] && after[j] == before[b]);
        }
    }
    assert forall|i: int| 0 <= i < after.len() implies (#[trigger] after[i]) == row_of(
        more,
        after[i].label,
    ) && tagged(more, after[i].label) by {
        if i < at {
            assert(after[i] == before[i]);
        } else if i > at {
            assert(after[i] == before[i - 1]);
        } else {
            assert(tagged(more, label));
        }
    }
    assert forall|l: Seq<char>| #[trigger] tagged(more, l) implies exists|i: int|
        0 <= i < after.len() && after[i].label == l by {
        if l == label {
            assert(after[at].label == l);
        } else {
            assert(tagged(done, l));
            let i = choose|i: int| 0 <= i < before.len() && before[i].label == l;
            if i < at {
                assert(after[i].label == l);
            } else {
                assert(after[i + 1].label == l);
            }
        }
    }
}

/// Counts one more item under `label`.
fn count_tag(rows: &mut Vec<Row>, label: String, slot: Slot, Ghost(done): Ghost<Seq<Tag>>)
    requires
        is_rollup(row_views(old(rows)@), done),
    ensures
        is_rollup(row_views(final(rows)@), done.push(Tag { label: label@, slot })),
{
    let ghost t = Tag { label: label@, slot };
    let ghost more = done.push(t);
    let ghost before = row_views(rows@);
    let mut lo: usize = 0;
    let mut hi: usize = rows.len();
    // Rows before `lo` have labels before `label`; rows from `hi` on do not.
    while lo < hi
        invariant
            lo <= hi <= rows@.len(),
            rows@ == old(rows)@,
            before == row_views(rows@),
            rows_ordered(before),
            forall|j: int| 0 <= j < lo ==> !label_le(label@, #[trigger] before[j].label),
            forall|j: int| hi <= j < before.len() ==> label_le(label@, #[trigger] before[j].label),
        decreases hi - lo,
    {
        let mid: usize = lo + (hi - lo) / 2;
        assert(before[mid as int].label == rows@[mid as int].label@);
        if label_not_after(label.as_str(), rows[mid].label.as_str()) {
            assert forall|j: int| mid <= j < before.len() implies label_le(
                label@,
                #[trigger] before[j].label,
            ) by {
                if j > mid {
                    label_le_transitive(label@, before[mid as int].label, before[j].label);
                }
            }
            hi = mid;
        } else {
            assert forall|j: int| 0 <= j <= mid implies !label_le(
                label@,
                #[trigger] before[j].label,
            ) by {
                if j < mid && label_le(label@, before[j].label) {
                    label_le_transitive(label@, before[j].label, before[mid as int].label);
                }
            }
            lo = mid + 1;
        }
    }
    let found = lo < rows.len() && same_text(rows[lo].label.as_str(), label.as_str());
    if found {
        proof {
            assert(before[lo as int].label == label@);
            assert(before[lo as int] == row_of(done, label@));
            rollup_bumps(before, done, t, lo as int);
            tally_push(done, t, label@);
        }
        if slot == Slot::First {
            rows[lo].first = increment(rows[lo].first);
        } else if slot == Slot::Second {
            rows[lo].second = increment(rows[lo].second);
        } else {
            rows[lo].third = increment(rows[lo].third);
        }
        assert(row_views(rows@)[lo as int] == row_of(more, label@));
        assert(row_views(rows@) =~= before.update(lo as int, row_of(more, label@)));
    } else {
        proof {
            if lo < rows@.len() {
                assert(before[lo as int].label == rows@[lo as int].label@);
            }
            rollup_inserts(before, done, t, lo as int);
        }
        let row = Row {
            label,
            first: if slot == Slot::First {
                1
            } else {
                0
            },
            second: if slot == Slot::Second {
                1
            } else {
                0
            },
            third: if slot == Slot::Third {
                1
            } else {
                0
            },
        };
        let ghost v = row@;
        rows.insert(lo, row);
        assert(row_views(rows@) =~= before.insert(lo as int, v));
    }
}

/// The rows of `tags`.
pub open spec fn rollup(tags: Seq<Tag>) -> Seq<RowView> {
    choose|rows: Seq<RowView>| is_rollup(rows, tags)
}

/// The order of labels, as a relation.
pub open spec fn by_label() -> spec_fn(Seq<char>, Seq<char>) -> bool {
    |a: Seq<char>, b: Seq<char>| label_le(a, b)
}

proof fn rollup_labels(rows: Seq<RowView>, tags: Seq<Tag>)
    requires
        is_rollup(rows, tags),
    ensures
        strictly(labels_of(rows), by_label()),
        forall|l: Seq<char>| #[trigger] labels_of(rows).contains(l) <==> tagged(tags, l),
{
    let ls = labels_of(rows);
    assert forall|i: int, j: int| 0 <= i < j < ls.len() implies by_label()(
        #[trigger] ls[i],
        #[trigger] ls[j],
    ) && ls[i] != ls[j] by {
        assert(label_le(rows[i].label, rows[j].label));
    }
    assert forall|l: Seq<char>| #[trigger] ls.contains(l) <==> tagged(tags, l) by {
        if ls.contains(l) {
            let i = choose|i: int| 0 <= i < ls.len() && ls[i] == l;
            assert(rows[i] == row_of(tags, rows[i].label));
        }
        if tagged(tags, l) {
            let i = choose|i: int| 0 <= i < rows.len() && rows[i].label == l;
            assert(ls[i] == l);
        }
    }
}

/// The rows of `tags` are determined by them.
pub proof fn rollup_unique(rows: Seq<RowView>, tags: Seq<Tag>)
    requires
        is_rollup(rows, tags),
    ensures
        rows == rollup(tags),
{
    let other = rollup(tags);
    rollup_exists(tags);
    rollup_labels(rows, tags);
    rollup_labels(other, tags);
    assert forall|a: Seq<char>, b: Seq<char>| #[trigger]
        by_label()(a, b) && #[trigger] by_label()(b, a) implies a == b by {
        label_le_total(a, b);
    }
    strictly_unique(labels_of(rows), labels_of(other), by_label());
    assert(rows.len() == labels_of(rows).len() == labels_of(other).len() == other.len());
    assert forall|i: int| 0 <= i < rows.len() implies rows[i] == other[i] by {
        assert(labels_of(rows)[i] == labels_of(other)[i]);
        assert(rows[i] == row_of(tags, rows[i].label));
        assert(other[i] == row_of(tags, other[i].label));
    }
    assert(rows =~= other);
}

proof fn place_for(rows: Seq<RowView>, label: Seq<char>, from: int) -> (at: int)
    requires
        rows_ordered(rows),
        0 <= from <= rows.len(),
        forall|j: int| 0 <= j < from ==> !label_le(label, #[trigger] rows[j].label),
    ensures
        from <= at <= rows.len(),
        forall|j: int| 0 <= j < at ==> !label_le(label, #[trigger] rows[j].label),
        forall|j: int| at <= j < rows.len() ==> label_le(label, #[trigger] rows[j].label),
    decreases rows.len() - from,
{
    if from == rows.len() {
        from
    } else if label_le(label, rows[from].label) {
        assert forall|j: int| from <= j < rows.len() implies label_le(
            label,
            #[trigger] rows[j].label,
        ) by {
            if j > from {
                label_le_transitive(label, rows[from].label, rows[j].label);
            }
        }
        from
    } else {
        place_for(rows, label, from + 1)
    }
}

/// Every list of items has its rows.
pub proof fn rollup_exists(tags: Seq<Tag>)
    ensures
        is_rollup(rollup(tags), tags),
    decreases tags.len(),
{
    if tags.len() == 0 {
        assert(is_rollup(Seq::empty(), tags));
    } else {
        let done = tags.drop_last();
        let t = tags.last();
        rollup_exists(done);
        let rows = rollup(done);
        let at = place_for(rows, t.label, 0);
        assert(done.push(t) =~= tags);
        if at < rows.len() && rows[at].label == t.label {
            rollup_bumps(rows, done, t, at);
            assert(is_rollup(rows.update(at, row_of(tags, t.label)), tags));
        } else {
            rollup_inserts(rows, done, t, at);
            assert(is_rollup(rows.insert(at, row_of(tags, t.label)), tags));
        }
    }
}

/// The items of a list of labels and slots.
pub open spec fn tags_of(items: Seq<(String, Slot)>) -> Seq<Tag> {
    Seq::new(items.len(), |i: int| Tag { label: items[i].0@, slot: items[i].1 })
}

/// Counts `items`: one row per label, in the order of labels.
pub fn roll_up(items: &Vec<(String, Slot)>) -> (rows: Vec<Row>)
    ensures
        row_views(rows@) == rollup(tags_of(items@)),
        is_rollup(row_views(rows@), tags_of(items@)),
{
    let mut rows: Vec<Row> = Vec::new();
    let ghost all = tags_of(items@);
    let mut i: usize = 0;
    while i < items.len()
        invariant
            i <= items@.len(),
            all == tags_of(items@),
            is_rollup(row_views(rows@), all.take(i as int)),
        decreases items@.len() - i,
    {
        count_tag(&mut rows, items[i].0.clone(), items[i].1, Ghost(all.take(i as int)));
        assert(all.take(i + 1) =~= all.take(i as int).push(all[i as int]));
        i = i + 1;
    }
    assert(all.take(i as int) =~= all);
    proof {
        rollup_unique(row_views(rows@), all);
    }
    rows
}

// ---------------------------------------------------------------------------------------
// Sums
// ---------------------------------------------------------------------------------------
/// How many of `tags` go to this slot.
pub open spec fn slot_count(tags: Seq<Tag>, slot: Slot) -> nat
    decreases tags.len(),
{
    if tags.len() == 0 {
        0
    } else {
        slot_count(tags.drop_last(), slot) + if tags.last().slot == slot {
            1nat
        } else {
            0nat
        }
    }
}

/// The sum of the counts of `labels` in this slot.
pub open spec fn sum_of(labels: Seq<Seq<char>>, tags: Seq<Tag>, slot: Slot) -> nat
    decreases labels.len(),
{
    if labels.len() == 0 {
        0
    } else {
        sum_of(labels.drop_last(), tags, slot) + tally(tags, labels.last(), slot)
    }
}

proof fn sum_of_push(labels: Seq<Seq<char>>, tags: Seq<Tag>, t: Tag, slot: Slot)
    requires
        strictly(labels, by_label()),
    ensures
        sum_of(labels, tags.push(t), slot) == sum_of(labels, tags, slot) + if t.slot == slot
            && labels.contains(t.label) {
            1nat
        } else {
            0nat
        },
    decreases labels.len(),
{
    if labels.len() > 0 {
        let rest = labels.drop_last();
        let last = labels.last();
        assert(strictly(rest, by_label())) by {
            assert forall|i: int, j: int| 0 <= i < j < rest.len() implies by_label()(
                #[trigger] rest[i],
                #[trigger] rest[j],
            ) && rest[i] != rest[j] by {
                assert(by_label()(labels[i], labels[j]) && labels[i] != labels[j]);
            }
        }
        sum_of_push(rest, tags, t, slot);
        tally_push(tags, t, last);
        assert(tally(tags.push(t), last, slot) == tally(tags, last, slot) + if t.label == last
            && t.slot == slot {
            1nat
        } else {
            0nat
        });
        if rest.contains(t.label) {
            let i = choose|i: int| 0 <= i < rest.len() && rest[i] == t.label;
            assert(labels[i] == t.label);
            assert(labels[i] != labels[labels.len() - 1]);
        }
        if labels.contains(t.label) {
            let i = choose|i: int| 0 <= i < labels.len() && labels[i] == t.label;
            if i < rest.len() {
                assert(rest[i] == t.label);
            }
        }
        if t.label == last {
            assert(labels[labels.len() - 1] == last);
        }
    }
}

proof fn sum_of_none(labels: Seq<Seq<char>>, slot: Slot)
    ensures
        sum_of(labels, Seq::empty(), slot) == 0,
    decreases labels.len(),
{
    if labels.len() > 0 {
        sum_of_none(labels.drop_last(), slot);
    }
}

proof fn sum_of_all(labels: Seq<Seq<char>>, tags: Seq<Tag>, slot: Slot)
    requires
        strictly(labels, by_label()),
        forall|i: int| 0 <= i < tags.len() ==> labels.contains((#[trigger] tags[i]).label),
    ensures
        sum_of(labels, tags, slot) == slot_count(tags, slot),
    decreases tags.len(),
{
    if tags.len() == 0 {
        assert(tags =~= Seq::empty());
        sum_of_none(labels, slot);
    } else {
        let rest = tags.drop_last();
        assert forall|i: int| 0 <= i < rest.len() implies labels.contains(
            (#[trigger] rest[i]).label,
        ) by {
            assert(labels.contains(tags[i].label));
        }
        sum_of_all(labels, rest, slot);
        sum_of_push(labels, rest, tags.last(), slot);
        assert(labels.contains(tags[tags.len() - 1].label));
        assert(rest.push(tags.last()) =~= tags);
    }
}

/// The rows of a rollup add up: in each slot, their counts sum to the number of items.
pub proof fn rollup_adds_up(tags: Seq<Tag>, slot: Slot)
    ensures
        sum_of(labels_of(rollup(tags)), tags, slot) == slot_count(tags, slot),
{
    let rows = rollup(tags);
    rollup_exists(tags);
    rollup_labels(rows, tags);
    assert forall|i: int| 0 <= i < tags.len() implies labels_of(rows).contains(
        (#[trigger] tags[i]).label,
    ) by {
        assert(tagged(tags, tags[i].label));
    }
    sum_of_all(labels_of(rows), tags, slot);
}

/// The three counts of a label never exceed the number of items.
pub proof fn tally_bound(tags: Seq<Tag>, label: Seq<char>)
    ensures
        tally(tags, label, Slot::First) + tally(tags, label, Slot::Second) + tally(
            tags,
            label,
            Slot::Third,
        ) <= tags.len(),
    decreases tags.len(),
{
    if tags.len() > 0 {
        tally_bound(tags.drop_last(), label);
    }
}

} // verus!
