//! Walking one b-tree: its pages and the overflow pages that its cells spill into.

use vstd::prelude::*;

use crate::btree::links::btree_header_offset;
use crate::btree::links::cell_links;
use crate::btree::links::cells_links;
use crate::btree::links::faulty;
use crate::btree::links::header_offset;
use crate::btree::links::is_btree_kind;
use crate::btree::links::page_links;
use crate::btree::links::read_cell_links;
use crate::btree::links::short_page;
use crate::btree::links::short_page_error;
use crate::btree::links::CellGeometry;
use crate::btree::links::CellLinks;
use crate::btree::links::INTERIOR_INDEX;
use crate::btree::links::INTERIOR_TABLE;
use crate::btree::links::LEAF_INDEX;
use crate::btree::links::LEAF_TABLE;
use crate::btree::links::Link;
use crate::bytes::be32;
use crate::bytes::read_be16;
use crate::bytes::read_be32;
use crate::dbfile::each_read_once;
use crate::dbfile::PageSource;
use crate::dbfile::Pages;
use crate::error::invalid_data;
use crate::error::Error;
use crate::error::ErrorView;
use crate::order::ascending;
use crate::order::sort_pages;
use crate::text::dec;
use crate::text::decimal;

verus! {

/// The pages of one b-tree.
#[derive(Debug)]
pub struct BtreePages {
    pub btree: Vec<u32>,
    pub overflow: Vec<u32>,
}

/// The mathematical value of [`BtreePages`].
pub struct BtreePagesView {
    pub btree: Seq<u32>,
    pub overflow: Seq<u32>,
}

impl View for BtreePages {
    type V = BtreePagesView;

    open spec fn view(&self) -> BtreePagesView {
        BtreePagesView { btree: self.btree@, overflow: self.overflow@ }
    }
}

/// How far a walk has come.
pub struct Walk {
    /// Pages still to be visited, the next one last.
    pub stack: Seq<u32>,
    /// One flag for each page of the database: has the walk met it?
    pub seen: Seq<bool>,
    /// The b-tree pages met so far.
    pub btree: Seq<u32>,
    /// The overflow pages met so far.
    pub overflow: Seq<u32>,
}

/// The number of pages that a walk has not met.
pub open spec fn unseen(seen: Seq<bool>) -> nat
    decreases seen.len(),
{
    if seen.len() == 0 {
        0
    } else {
        unseen(seen.drop_last()) + if seen.last() {
            0nat
        } else {
            1nat
        }
    }
}

/// Meeting one more page leaves one page less to meet.
pub proof fn unseen_update(seen: Seq<bool>, i: int)
    requires
        0 <= i < seen.len(),
        !seen[i],
    ensures
        unseen(seen.update(i, true)) + 1 == unseen(seen),
    decreases seen.len(),
{
    let next = seen.update(i, true);
    if i == seen.len() - 1 {
        assert(next.drop_last() =~= seen.drop_last());
    } else {
        assert(next.drop_last() =~= seen.drop_last().update(i, true));
        unseen_update(seen.drop_last(), i);
    }
}

/// At first no page is met.
pub proof fn unseen_at_first(seen: Seq<bool>)
    requires
        forall|i: int| 0 <= i < seen.len() ==> !seen[i],
    ensures
        unseen(seen) == seen.len(),
    decreases seen.len(),
{
    if seen.len() > 0 {
        unseen_at_first(seen.drop_last());
    }
}

/// Since `start` only pages that are met were read, each once, and no more than are met.
pub open spec fn only_met_read(start: Seq<u32>, now: Seq<u32>, seen: Seq<bool>) -> bool {
    &&& start.len() <= now.len()
    &&& now.take(start.len() as int) == start
    &&& forall|i: int|
        start.len() <= i < now.len() ==> 1 <= #[trigger] now[i] <= seen.len() && seen[now[i] - 1]
    &&& forall|i: int, j: int| start.len() <= i < j < now.len() ==> now[i] != now[j]
    &&& now.len() - start.len() + unseen(seen) <= seen.len()
}

proof fn read_when_met(start: Seq<u32>, now: Seq<u32>, seen: Seq<bool>, p: u32)
    requires
        only_met_read(start, now, seen),
        1 <= p <= seen.len(),
        !seen[p - 1],
    ensures
        only_met_read(start, now.push(p), seen.update(p - 1, true)),
{
    let next = now.push(p);
    unseen_update(seen, p - 1);
    assert(next.take(start.len() as int) =~= now.take(start.len() as int));
    assert forall|i: int, j: int| start.len() <= i < j < next.len() implies next[i] != next[j] by {
        if j == now.len() {
            assert(seen[now[i] - 1]);
        }
    }
}

/// The pages met and the overflow pages collected, after an overflow chain was followed.
pub struct Trail {
    pub seen: Seq<bool>,
    pub pages: Seq<u32>,
}

/// Follows an overflow chain from page `next` until `rest` more payload bytes are covered,
/// or says what is wrong with it. Each page of the chain starts with the number of the next
/// and carries `capacity` payload bytes.
pub open spec fn chain(src: Pages, next: u32, rest: nat, t: Trail) -> Result<Trail, ErrorView>
    decreases unseen(t.seen),
{
    let capacity = src.header.usable() - 4;
    if next == 0 {
        Err(invalid_data("overflow chain shorter than payload length"@))
    } else if next > t.seen.len() {
        Err(
            invalid_data("overflow pointer to page "@ + dec(next as nat) + " out of range"@),
        )
    } else if t.seen[next - 1] {
        Err(invalid_data("overflow chain cycle at page "@ + dec(next as nat)))
    } else {
        match (src.read)(next) {
            Err(e) => Err(e),
            Ok(page) => {
                proof {
                    unseen_update(t.seen, next - 1);
                }
                let met = Trail {
                    seen: t.seen.update(next - 1, true),
                    pages: t.pages.push(next),
                };
                if page.len() < 4 {
                    Err(short_page(next))
                } else if rest <= capacity {
                    Ok(met)
                } else {
                    chain(src, be32(page, 0), (rest - capacity) as nat, met)
                }
            },
        }
    }
}

/// Follows `links` in order: a child is put on the stack, a chain is followed to its end,
/// and a fault ends the walk.
pub open spec fn follow(src: Pages, links: Seq<Link>, w: Walk) -> Result<Walk, ErrorView>
    decreases links.len(),
{
    if links.len() == 0 {
        Ok(w)
    } else {
        match links.first() {
            Link::Fault(e) => Err(e),
            Link::Child(p) => follow(
                src,
                links.drop_first(),
                Walk { stack: w.stack.push(p), ..w },
            ),
            Link::Chain { first, rest } => match chain(
                src,
                first,
                rest,
                Trail { seen: w.seen, pages: w.overflow },
            ) {
                Err(e) => Err(e),
                Ok(t) => follow(
                    src,
                    links.drop_first(),
                    Walk { seen: t.seen, overflow: t.pages, ..w },
                ),
            },
        }
    }
}

/// The walk after page `p`, the last of the stack, was taken from it and met.
pub open spec fn enter(w: Walk, p: u32) -> Walk {
    Walk {
        stack: w.stack.drop_last(),
        seen: w.seen.update(p - 1, true),
        btree: w.btree.push(p),
        overflow: w.overflow,
    }
}

/// Visits the pages on the stack, and those they lead to, until the stack is empty.
pub open spec fn walk_on(src: Pages, w: Walk) -> Result<Walk, ErrorView>
    decreases unseen(w.seen),
{
    let p = w.stack.last();
    if w.stack.len() == 0 {
        Ok(w)
    } else if p == 0 || p > w.seen.len() {
        Err(invalid_data("b-tree pointer to page "@ + dec(p as nat) + " out of range"@))
    } else if w.seen[p - 1] {
        Err(invalid_data("b-tree pointer cycle at page "@ + dec(p as nat)))
    } else {
        match (src.read)(p) {
            Err(e) => Err(e),
            Ok(page) => {
                let links = page_links(p, page, src.header.usable());
                proof {
                    unseen_update(w.seen, p - 1);
                    follow_meets(src, links, enter(w, p));
                }
                match follow(src, links, enter(w, p)) {
                    Err(e) => Err(e),
                    Ok(next) => walk_on(src, next),
                }
            },
        }
    }
}

/// The walk of the b-tree rooted at `root` before its first step.
pub open spec fn walk_start(src: Pages, root: u32) -> Walk {
    Walk {
        stack: seq![root],
        seen: Seq::new(src.header.page_count as nat, |i: int| false),
        btree: Seq::empty(),
        overflow: Seq::empty(),
    }
}

/// The pages of the b-tree rooted at `root`, or the first defect that the walk meets.
pub open spec fn walk(src: Pages, root: u32) -> Result<BtreePagesView, ErrorView> {
    match walk_on(src, walk_start(src, root)) {
        Err(e) => Err(e),
        Ok(w) => Ok(
            BtreePagesView { btree: ascending(w.btree), overflow: ascending(w.overflow) },
        ),
    }
}

/// Following a chain only ever meets more pages.
pub proof fn chain_meets(src: Pages, next: u32, rest: nat, t: Trail)
    ensures
        chain(src, next, rest, t) matches Ok(u) ==> u.seen.len() == t.seen.len() && unseen(u.seen)
            <= unseen(t.seen),
    decreases unseen(t.seen),
{
    if next != 0 && next <= t.seen.len() && !t.seen[next - 1] {
        unseen_update(t.seen, next - 1);
        if let Ok(page) = (src.read)(next) {
            let capacity = src.header.usable() - 4;
            let met = Trail { seen: t.seen.update(next - 1, true), pages: t.pages.push(next) };
            if page.len() >= 4 && rest > capacity {
                chain_meets(src, be32(page, 0), (rest - capacity) as nat, met);
            }
        }
    }
}

/// Following links only ever meets more pages.
pub proof fn follow_meets(src: Pages, links: Seq<Link>, w: Walk)
    ensures
        follow(src, links, w) matches Ok(u) ==> u.seen.len() == w.seen.len() && unseen(u.seen)
            <= unseen(w.seen),
    decreases links.len(),
{
    if links.len() > 0 {
        match links.first() {
            Link::Fault(e) => {},
            Link::Child(p) => {
                follow_meets(src, links.drop_first(), Walk { stack: w.stack.push(p), ..w });
            },
            Link::Chain { first, rest } => {
                let t0 = Trail { seen: w.seen, pages: w.overflow };
                chain_meets(src, first, rest, t0);
                if let Ok(t) = chain(src, first, rest, t0) {
                    follow_meets(
                        src,
                        links.drop_first(),
                        Walk { seen: t.seen, overflow: t.pages, ..w },
                    );
                }
            },
        }
    }
}

proof fn follow_fault(src: Pages, links: Seq<Link>, e: ErrorView, tail: Seq<Link>, w: Walk)
    requires
        faulty(links, e),
    ensures
        follow(src, links + tail, w) == Err::<Walk, ErrorView>(e),
    decreases links.len(),
{
    if let Link::Child(p) = links.first() {
        assert((links + tail).drop_first() =~= links.drop_first() + tail);
        follow_fault(
            src,
            links.drop_first(),
            e,
            tail,
            Walk { stack: w.stack.push(p), ..w },
        );
    }
}

/// The walk after the child of a cell was put on the stack.
spec fn with_child(w: Walk, child: Option<u32>) -> Walk {
    match child {
        None => w,
        Some(p) => Walk { stack: w.stack.push(p), ..w },
    }
}

proof fn follow_cell(src: Pages, c: CellLinks, tail: Seq<Link>, w: Walk)
    ensures
        follow(src, c.links() + tail, w) == (match c.chain {
            None => follow(src, tail, with_child(w, c.child)),
            Some((first, rest)) => match chain(
                src,
                first,
                rest as nat,
                Trail { seen: w.seen, pages: w.overflow },
            ) {
                Err(e) => Err(e),
                Ok(t) => follow(
                    src,
                    tail,
                    Walk { seen: t.seen, overflow: t.pages, ..with_child(w, c.child) },
                ),
            },
        }),
{
    let all = c.links() + tail;
    let after_child = c.chain_links() + tail;
    if c.child is Some {
        assert(all.drop_first() =~= after_child);
    } else {
        assert(all =~= after_child);
    }
    assert(follow(src, all, w) == follow(src, after_child, with_child(w, c.child)));
    if c.chain is Some {
        assert(after_child.drop_first() =~= tail);
    } else {
        assert(after_child =~= tail);
    }
}

/// Follows an overflow chain from page `first` until `len` payload bytes are covered,
/// pushing each page of it to `pages`.
fn collect_overflow<S: PageSource>(
    src: &mut S,
    first: u32,
    len: u64,
    pages: &mut Vec<u32>,
    visited: &mut Vec<bool>,
) -> (r: Result<(), Error>)
    requires
        old(src).wf(),
        len > 0,
        old(visited)@.len() == old(src).pages().header.page_count,
    ensures
        final(src).wf(),
        final(src).pages() == old(src).pages(),
        final(visited)@.len() == old(visited)@.len(),
        forall|start: Seq<u32>| #[trigger]
            only_met_read(start, old(src).reads(), old(visited)@) ==> only_met_read(
                start,
                final(src).reads(),
                final(visited)@,
            ),
        match r {
            Ok(()) => chain(
                old(src).pages(),
                first,
                len as nat,
                Trail { seen: old(visited)@, pages: old(pages)@ },
            ) == Ok::<Trail, ErrorView>(Trail { seen: final(visited)@, pages: final(pages)@ }),
            Err(e) => chain(
                old(src).pages(),
                first,
                len as nat,
                Trail { seen: old(visited)@, pages: old(pages)@ },
            ) == Err::<Trail, ErrorView>(e@),
        },
{
    let mut next: u32 = first;
    let mut rest: u64 = len;
    let page_count: u32 = src.page_count();
    let capacity: u64 = src.header().usable_size() as u64 - 4;
    let ghost whole = chain(
        src.pages(),
        first,
        len as nat,
        Trail { seen: visited@, pages: pages@ },
    );
    while next != 0
        invariant
            src.wf(),
            src.pages() == old(src).pages(),
            page_count == src.pages().header.page_count,
            capacity == src.pages().header.usable() - 4,
            visited@.len() == page_count,
            visited@.len() == old(visited)@.len(),
            forall|start: Seq<u32>| #[trigger]
                only_met_read(start, old(src).reads(), old(visited)@) ==> only_met_read(
                    start,
                    src.reads(),
                    visited@,
                ),
            whole == chain(
                old(src).pages(),
                first,
                len as nat,
                Trail { seen: old(visited)@, pages: old(pages)@ },
            ),
            whole == chain(
                src.pages(),
                next,
                rest as nat,
                Trail { seen: visited@, pages: pages@ },
            ),
        decreases unseen(visited@),
    {
        if next > page_count {
            let mut m = "overflow pointer to page ".to_string();
            m.push_str(decimal(next as u64).as_str());
            m.push_str(" out of range");
            return Err(Error::invalid_data(m));
        }
        let at: usize = next as usize - 1;
        if visited[at] {
            let mut m = "overflow chain cycle at page ".to_string();
            m.push_str(decimal(next as u64).as_str());
            return Err(Error::invalid_data(m));
        }
        proof {
            unseen_update(visited@, at as int);
        }
        proof {
            assert forall|start: Seq<u32>| #[trigger]
                only_met_read(start, old(src).reads(), old(visited)@) implies only_met_read(
                start,
                src.reads().push(next),
                visited@.update(at as int, true),
            ) by {
                read_when_met(start, src.reads(), visited@, next);
            }
        }
        visited.set(at, true);
        pages.push(next);
        let page = match src.page(next) {
            Ok(p) => p,
            Err(e) => {
                return Err(e);
            },
        };
        if page.len() < 4 {
            return Err(short_page_error(next));
        }
        if rest <= capacity {
            return Ok(());
        }
        next = read_be32(page.as_slice(), 0);
        rest = rest - capacity;
    }
    Err(Error::invalid_data("overflow chain shorter than payload length".to_string()))
}

/// Walks the b-tree rooted at `root` and collects every b-tree page and every overflow page
/// that it refers to. A pointer cycle is an error, never an endless loop: no page is read twice.
pub fn walk_btree<S: PageSource>(src: &mut S, root: u32) -> (r: Result<BtreePages, Error>)
    requires
        old(src).wf(),
    ensures
        final(src).wf(),
        final(src).pages() == old(src).pages(),
        each_read_once(old(src).reads(), final(src).reads(), old(src).pages().header.page_count),
        match r {
            Ok(pages) => walk(old(src).pages(), root) == Ok::<BtreePagesView, ErrorView>(pages@),
            Err(e) => walk(old(src).pages(), root) == Err::<BtreePagesView, ErrorView>(e@),
        },
{
    let page_count: u32 = src.page_count();
    let geo = CellGeometry { usable: src.header().usable_size() };
    let ghost all = src.pages();
    let mut visited: Vec<bool> = vec![false; page_count as usize];
    let mut stack: Vec<u32> = Vec::new();
    let mut btree: Vec<u32> = Vec::new();
    let mut overflow: Vec<u32> = Vec::new();
    stack.push(root);
    let ghost start = walk_start(all, root);
    proof {
        assert(visited@ =~= start.seen);
        assert(stack@ =~= start.stack);
        unseen_at_first(visited@);
        assert(src.reads().take(src.reads().len() as int) =~= src.reads());
    }
    while stack.len() > 0
        invariant
            src.wf(),
            src.pages() == all,
            all == old(src).pages(),
            page_count == all.header.page_count,
            geo.wf(),
            geo.usable == all.header.usable(),
            visited@.len() == page_count,
            only_met_read(old(src).reads(), src.reads(), visited@),
            walk_on(all, start) == walk_on(
                all,
                (Walk { stack: stack@, seen: visited@, btree: btree@, overflow: overflow@ }),
            ),
            start == walk_start(all, root),
        decreases unseen(visited@),
    {
        let ghost w = Walk { stack: stack@, seen: visited@, btree: btree@, overflow: overflow@ };
        let pgno: u32 = stack[stack.len() - 1];
        stack.pop();
        if pgno == 0 || pgno > page_count {
            let mut m = "b-tree pointer to page ".to_string();
            m.push_str(decimal(pgno as u64).as_str());
            m.push_str(" out of range");
            return Err(Error::invalid_data(m));
        }
        let at: usize = pgno as usize - 1;
        if visited[at] {
            let mut m = "b-tree pointer cycle at page ".to_string();
            m.push_str(decimal(pgno as u64).as_str());
            return Err(Error::invalid_data(m));
        }
        proof {
            unseen_update(visited@, at as int);
        }
        proof {
            read_when_met(old(src).reads(), src.reads(), visited@, pgno);
        }
        visited.set(at, true);
        btree.push(pgno);
        let ghost entered = enter(w, pgno);
        assert(stack@ =~= entered.stack);
        let page = match src.page(pgno) {
            Ok(p) => p,
            Err(e) => {
                return Err(e);
            },
        };
        let ghost links = page_links(pgno, page@, geo.usable as int);
        let hoff: usize = btree_header_offset(pgno);
        if page.len() < hoff + 5 {
            return Err(short_page_error(pgno));
        }
        let kind: u8 = page[hoff];
        let ncells: usize = read_be16(page.as_slice(), hoff + 3);
        let interior = kind == INTERIOR_INDEX || kind == INTERIOR_TABLE;
        if !interior && kind != LEAF_INDEX && kind != LEAF_TABLE {
            let mut m = "page ".to_string();
            m.push_str(decimal(pgno as u64).as_str());
            m.push_str(": unknown b-tree page type ");
            m.push_str(decimal(kind as u64).as_str());
            return Err(Error::invalid_data(m));
        }
        if interior {
            if page.len() < hoff + 12 {
                return Err(short_page_error(pgno));
            }
            stack.push(read_be32(page.as_slice(), hoff + 8));
            assert(links.drop_first() =~= cells_links(
                pgno,
                page@,
                0,
                ncells as nat,
                geo.usable as int,
            ));
        }
        proof {
            follow_meets(all, links, entered);
        }
        let ghost here = follow(all, links, entered);
        let mut i: usize = 0;
        while i < ncells
            invariant
                src.wf(),
                src.pages() == all,
                all == old(src).pages(),
                page_count == all.header.page_count,
                geo.wf(),
                geo.usable == all.header.usable(),
                i <= ncells <= 0xffff,
                header_offset(pgno) < page@.len(),
                is_btree_kind(page@[header_offset(pgno)]),
                visited@.len() == page_count,
                only_met_read(old(src).reads(), src.reads(), visited@),
                here == follow(
                    all,
                    cells_links(pgno, page@, i as nat, ncells as nat, geo.usable as int),
                    (Walk { stack: stack@, seen: visited@, btree: btree@, overflow: overflow@ }),
                ),
                match here {
                    Err(e) => walk(all, root) == Err::<BtreePagesView, ErrorView>(e),
                    Ok(next) => walk_on(all, start) == walk_on(all, next),
                },
            decreases ncells - i,
        {
            let ghost now = Walk {
                stack: stack@,
                seen: visited@,
                btree: btree@,
                overflow: overflow@,
            };
            let ghost tail = cells_links(
                pgno,
                page@,
                (i + 1) as nat,
                ncells as nat,
                geo.usable as int,
            );
            match read_cell_links(pgno, &page, i, &geo) {
                Err(e) => {
                    proof {
                        follow_fault(
                            all,
                            cell_links(pgno, page@, i as nat, geo.usable as int),
                            e@,
                            tail,
                            now,
                        );
                    }
                    return Err(e);
                },
                Ok(c) => {
                    proof {
                        follow_cell(all, c, tail, now);
                    }
                    if let Some(child) = c.child {
                        stack.push(child);
                    }
                    if let Some((first, rest)) = c.chain {
                        let r = collect_overflow(src, first, rest, &mut overflow, &mut visited);
                        if let Err(e) = r {
                            return Err(e);
                        }
                        proof {
                            chain_meets(
                                all,
                                first,
                                rest as nat,
                                Trail { seen: now.seen, pages: now.overflow },
                            );
                        }
                    }
                },
            }
            i = i + 1;
        }
    }
    Ok(BtreePages { btree: sort_pages(btree), overflow: sort_pages(overflow) })
}

} // verus!
