//! Every tree that is in order can be walked.

use vstd::prelude::*;

use crate::btree::links::page_links;
use crate::btree::links::Link;
use crate::btree::reach::chain_page;
use crate::btree::reach::leads;
use crate::btree::reach::reachable;
use crate::btree::reach::refers;
use crate::btree::reach::sound;
use crate::btree::walk::chain;
use crate::btree::walk::enter;
use crate::btree::walk::follow;
use crate::btree::walk::follow_meets;
use crate::btree::walk::unseen;
use crate::btree::walk::unseen_update;
use crate::btree::walk::walk;
use crate::btree::walk::walk_on;
use crate::btree::walk::walk_start;
use crate::btree::walk::Trail;
use crate::btree::walk::Walk;
use crate::bytes::be32;
use crate::dbfile::Pages;
use crate::error::ErrorView;

verus! {

// ---------------------------------------------------------------------------------------
// Trees in order
// ---------------------------------------------------------------------------------------
/// A place where a page is referred to: link `i` of page `q`, and there page `k` of the chain that
/// starts with it.
pub struct Spot {
    pub q: u32,
    pub i: nat,
    pub k: nat,
}

/// The page that is referred to at `at`: the child, or a page of the overflow chain.
pub open spec fn page_at(src: Pages, at: Spot) -> Option<u32> {
    match (src.read)(at.q) {
        Err(_) => None,
        Ok(page) => {
            let links = page_links(at.q, page, src.header.usable());
            if at.i < links.len() {
                match links[at.i as int] {
                    Link::Child(p) => if at.k == 0 {
                        Some(p)
                    } else {
                        None
                    },
                    Link::Chain { first, rest } => chain_page(src, first, rest, at.k),
                    Link::Fault(_) => None,
                }
            } else {
                None
            }
        },
    }
}

/// The overflow chain from page `first` on has every page that `rest` payload bytes need, and each
/// can be read.
pub open spec fn whole_chain(src: Pages, first: u32, rest: nat) -> bool {
    forall|k: nat|
        k == 0 || k * (src.header.usable() - 4) < rest ==> (#[trigger] chain_page(
            src,
            first,
            rest,
            k,
        ) matches Some(p) && 1 <= p <= src.header.page_count && ((src.read)(p) matches Ok(page)
            && page.len() >= 4))
}

/// The tree rooted at `root` is in order: every page that child pointers lead to is there and in
/// order, every overflow chain is whole, no page is referred to from two places, and nothing
/// refers to the root.
pub open spec fn tree_in_order(src: Pages, root: u32) -> bool {
    &&& forall|p: u32| #[trigger]
        reachable(src, root, p) ==> 1 <= p <= src.header.page_count && sound(src, p)
    &&& forall|q: u32, first: u32, rest: nat|
        reachable(src, root, q) && #[trigger] refers(src, q, Link::Chain { first, rest })
            ==> whole_chain(src, first, rest)
    &&& forall|a: Spot, b: Spot|
        reachable(src, root, a.q) && reachable(src, root, b.q) && #[trigger] page_at(src, a) is Some
            && page_at(src, a) == #[trigger] page_at(src, b) ==> a == b
    &&& forall|a: Spot| reachable(src, root, a.q) ==> #[trigger] page_at(src, a) != Some(root)
}

// ---------------------------------------------------------------------------------------
// The walk goes through
// ---------------------------------------------------------------------------------------
/// The pages met so far are the root and those at the spots `used`.
spec fn met_at(src: Pages, root: u32, seen: Seq<bool>, used: Set<Spot>) -> bool {
    &&& seen.len() == src.header.page_count
    &&& forall|p: u32|
        1 <= p <= seen.len() && #[trigger] seen[p - 1] ==> p == root || exists|a: Spot| #[trigger]
            used.contains(a) && page_at(src, a) == Some(p)
}

/// `a` is a spot on a page of `btree`, and on page `p` it is none of link `i` or later.
spec fn passed(src: Pages, root: u32, btree: Seq<u32>, a: Spot, p: u32, i: nat) -> bool {
    reachable(src, root, a.q) && btree.contains(a.q) && (a.q == p ==> a.i < i)
}

/// What holds of a walk that has come to link `i` of page `p`: `used` are the spots whose pages
/// were met, and `at` those of the pages on the stack.
spec fn on_course(
    src: Pages,
    root: u32,
    w: Walk,
    used: Set<Spot>,
    at: Seq<Spot>,
    p: u32,
    i: nat,
) -> bool {
    &&& met_at(src, root, w.seen, used)
    &&& at.len() == w.stack.len()
    &&& at.no_duplicates()
    &&& forall|j: int|
        0 <= j < at.len() ==> page_at(src, #[trigger] at[j]) == Some(w.stack[j]) && !used.contains(
            at[j],
        ) && passed(src, root, w.btree, at[j], p, i) && reachable(src, root, w.stack[j])
    &&& forall|a: Spot| #[trigger] used.contains(a) ==> passed(src, root, w.btree, a, p, i)
    &&& forall|q: u32| #[trigger]
        w.btree.contains(q) ==> 1 <= q <= w.seen.len() && w.seen[q - 1]
}

proof fn unmet(src: Pages, root: u32, seen: Seq<bool>, used: Set<Spot>, a: Spot, p: u32)
    requires
        tree_in_order(src, root),
        met_at(src, root, seen, used),
        forall|b: Spot| #[trigger] used.contains(b) ==> reachable(src, root, b.q),
        !used.contains(a),
        reachable(src, root, a.q),
        page_at(src, a) == Some(p),
        1 <= p <= seen.len(),
    ensures
        !seen[p - 1],
{
    if seen[p - 1] {
        assert(p != root);
        let b = choose|b: Spot| #[trigger] used.contains(b) && page_at(src, b) == Some(p);
        assert(page_at(src, a) == page_at(src, b));
    }
}

proof fn next_on_chain(src: Pages, first: u32, rest: nat, k: nat, page: Seq<u8>)
    requires
        480 <= src.header.usable(),
        chain_page(src, first, rest, k) matches Some(p) && (src.read)(p) == Ok::<
            Seq<u8>,
            ErrorView,
        >(page),
        page.len() >= 4,
        rest > (k + 1) * (src.header.usable() - 4),
    ensures
        chain_page(src, first, rest, k + 1) == (if be32(page, 0) == 0 {
            None
        } else {
            Some(be32(page, 0))
        }),
    decreases k,
{
    let room = src.header.usable() - 4;
    reveal_with_fuel(chain_page, 2);
    assert((k + 1) * room == k * room + room && k * room >= 0) by (nonlinear_arith)
        requires
            room > 0,
            k >= 0,
    ;
    if k > 0 {
        let head = (src.read)(first)->Ok_0;
        assert((k - 1 + 1) * room == k * room) by (nonlinear_arith);
        next_on_chain(src, be32(head, 0), (rest - room) as nat, (k - 1) as nat, page);
    }
}

proof fn chain_goes_through(
    src: Pages,
    root: u32,
    p: u32,
    i: nat,
    first: u32,
    rest: nat,
    k: nat,
    t: Trail,
    used: Set<Spot>,
) -> (more: Set<Spot>)
    requires
        480 <= src.header.usable(),
        tree_in_order(src, root),
        reachable(src, root, p),
        (src.read)(p) matches Ok(page) && i < page_links(p, page, src.header.usable()).len()
            && page_links(p, page, src.header.usable())[i as int] == (Link::Chain { first, rest }),
        k == 0 || k * (src.header.usable() - 4) < rest,
        met_at(src, root, t.seen, used),
        forall|a: Spot| #[trigger] used.contains(a) ==> reachable(src, root, a.q),
        forall|a: Spot| #[trigger] used.contains(a) && a.q == p ==> a.i <= i,
        forall|a: Spot| #[trigger] used.contains(a) && a.q == p && a.i == i ==> a.k < k,
    ensures
        ({
            let next = chain_page(src, first, rest, k).unwrap();
            let left = (rest - k * (src.header.usable() - 4)) as nat;
            chain(src, next, left, t) matches Ok(u) && met_at(src, root, u.seen, more)
                && u.seen.len() == t.seen.len() && (forall|q: int|
                0 <= q < t.seen.len() && #[trigger] t.seen[q] ==> u.seen[q])
        }),
        forall|a: Spot| #[trigger]
            more.contains(a) ==> used.contains(a) || a.q == p && a.i == i,
    decreases unseen(t.seen),
{
    let room = src.header.usable() - 4;
    let page = (src.read)(p)->Ok_0;
    let links = page_links(p, page, src.header.usable());
    assert(links.contains(links[i as int]));
    assert(refers(src, p, Link::Chain { first, rest }));
    assert(whole_chain(src, first, rest));
    let next = chain_page(src, first, rest, k).unwrap();
    let here = Spot { q: p, i, k };
    assert(page_at(src, here) == Some(next));
    assert(k * room >= 0) by (nonlinear_arith)
        requires
            k >= 0,
            room > 0,
    ;
    assert(0 * room == 0) by (nonlinear_arith);
    let left = (rest - k * room) as nat;
    unmet(src, root, t.seen, used, here, next);
    let met = Trail { seen: t.seen.update(next - 1, true), pages: t.pages.push(next) };
    let now = used.insert(here);
    unseen_update(t.seen, next - 1);
    assert(met_at(src, root, met.seen, now)) by {
        assert forall|x: u32| 1 <= x <= met.seen.len() && #[trigger] met.seen[x - 1] implies x
            == root || exists|a: Spot| #[trigger]
            now.contains(a) && page_at(src, a) == Some(x) by {
            if x == next {
                assert(now.contains(here));
            } else if x != root {
                assert(t.seen[x - 1]);
                let a = choose|a: Spot| #[trigger] used.contains(a) && page_at(src, a) == Some(x);
                assert(now.contains(a));
            }
        }
    }
    if left <= room {
        now
    } else {
        assert((k + 1) * room == k * room + room) by (nonlinear_arith);
        let there = (src.read)(next)->Ok_0;
        next_on_chain(src, first, rest, k, there);
        assert(chain_page(src, first, rest, k + 1) is Some);
        let more = chain_goes_through(src, root, p, i, first, rest, k + 1, met, now);
        assert forall|q: int| 0 <= q < t.seen.len() && #[trigger] t.seen[q] implies chain(
            src,
            next,
            left,
            t,
        )->Ok_0.seen[q] by {
            assert(met.seen[q]);
        }
        more
    }
}

proof fn links_go_through(
    src: Pages,
    root: u32,
    p: u32,
    i: nat,
    w: Walk,
    used: Set<Spot>,
    at: Seq<Spot>,
) -> (r: (Set<Spot>, Seq<Spot>))
    requires
        480 <= src.header.usable(),
        tree_in_order(src, root),
        reachable(src, root, p),
        (src.read)(p) matches Ok(page) && i <= page_links(p, page, src.header.usable()).len(),
        w.btree.contains(p),
        on_course(src, root, w, used, at, p, i),
    ensures
        ({
            let links = page_links(p, (src.read)(p)->Ok_0, src.header.usable());
            follow(src, links.skip(i as int), w) matches Ok(u) && on_course(
                src,
                root,
                u,
                r.0,
                r.1,
                p,
                links.len(),
            )
        }),
    decreases page_links(p, (src.read)(p)->Ok_0, src.header.usable()).len() - i,
{
    let links = page_links(p, (src.read)(p)->Ok_0, src.header.usable());
    let rest_links = links.skip(i as int);
    if i == links.len() {
        (used, at)
    } else {
        let link = links[i as int];
        assert(rest_links.first() == link);
        assert(rest_links.drop_first() =~= links.skip(i as int + 1));
        assert(links.contains(link));
        assert(refers(src, p, link));
        match link {
            Link::Fault(e) => {
                assert(refers(src, p, Link::Fault(e)));
                (used, at)
            },
            Link::Child(c) => {
                let here = Spot { q: p, i, k: 0 };
                let next = Walk { stack: w.stack.push(c), ..w };
                let spots = at.push(here);
                assert(page_at(src, here) == Some(c));
                let n = choose|n: nat| leads(src, root, p, n);
                assert(leads(src, root, c, n + 1));
                assert(on_course(src, root, next, used, spots, p, i + 1));
                links_go_through(src, root, p, i + 1, next, used, spots)
            },
            Link::Chain { first, rest } => {
                let t = Trail { seen: w.seen, pages: w.overflow };
                let more = chain_goes_through(src, root, p, i, first, rest, 0, t, used);
                let room = src.header.usable() - 4;
                assert(0 * room == 0) by (nonlinear_arith);
                assert(whole_chain(src, first, rest));
                assert(chain_page(src, first, rest, 0) == Some(first));
                let u = chain(src, first, rest, t)->Ok_0;
                let next = Walk { seen: u.seen, overflow: u.pages, ..w };
                assert(on_course(src, root, next, more, at, p, i + 1));
                links_go_through(src, root, p, i + 1, next, more, at)
            },
        }
    }
}

proof fn steps_go_through(src: Pages, root: u32, w: Walk, used: Set<Spot>, at: Seq<Spot>, p: u32)
    requires
        480 <= src.header.usable(),
        tree_in_order(src, root),
        exists|i: nat| on_course(src, root, w, used, at, p, i),
        w.btree.contains(root),
    ensures
        walk_on(src, w) is Ok,
    decreases unseen(w.seen),
{
    let i = choose|i: nat| on_course(src, root, w, used, at, p, i);
    if w.stack.len() > 0 {
        let last = w.stack.len() - 1;
        let q = w.stack.last();
        let here = at[last];
        assert(page_at(src, here) == Some(q));
        assert(reachable(src, root, q));
        unmet(src, root, w.seen, used, here, q);
        let page = (src.read)(q)->Ok_0;
        let links = page_links(q, page, src.header.usable());
        let e = enter(w, q);
        let now = used.insert(here);
        let spots = at.drop_last();
        assert(!w.btree.contains(q));
        assert forall|x: u32| #[trigger] e.btree.contains(x) <==> w.btree.contains(x) || x == q by {
            if w.btree.contains(x) {
                let k = choose|k: int| 0 <= k < w.btree.len() && w.btree[k] == x;
                assert(e.btree[k] == x);
            }
            assert(e.btree[w.btree.len() as int] == q);
        }
        assert(on_course(src, root, e, now, spots, q, 0)) by {
            assert forall|x: u32| 1 <= x <= e.seen.len() && #[trigger] e.seen[x - 1] implies x
                == root || exists|a: Spot| #[trigger]
                now.contains(a) && page_at(src, a) == Some(x) by {
                if x == q {
                    assert(now.contains(here));
                } else if x != root {
                    assert(w.seen[x - 1]);
                    let a = choose|a: Spot| #[trigger]
                        used.contains(a) && page_at(src, a) == Some(x);
                    assert(now.contains(a));
                }
            }
            assert forall|j: int| 0 <= j < spots.len() implies page_at(src, #[trigger] spots[j])
                == Some(e.stack[j]) && !now.contains(spots[j]) && passed(
                src,
                root,
                e.btree,
                spots[j],
                q,
                0,
            ) && reachable(src, root, e.stack[j]) by {
                assert(spots[j] == at[j]);
                assert(at[j] != at[last]);
                assert(passed(src, root, w.btree, at[j], p, i));
            }
            assert forall|a: Spot| #[trigger] now.contains(a) implies passed(
                src,
                root,
                e.btree,
                a,
                q,
                0,
            ) by {
                if a != here {
                    assert(passed(src, root, w.btree, a, p, i));
                } else {
                    assert(passed(src, root, w.btree, at[last], p, i));
                }
            }
            assert forall|x: u32| #[trigger] e.btree.contains(x) implies 1 <= x <= e.seen.len()
                && e.seen[x - 1] by {}
            assert(spots.no_duplicates());
        }
        unseen_update(w.seen, q - 1);
        follow_meets(src, links, e);
        let r = links_go_through(src, root, q, 0, e, now, spots);
        assert(links.skip(0) =~= links);
        let next = follow(src, links, e)->Ok_0;
        assert(on_course(src, root, next, r.0, r.1, q, links.len()));
        assert(next.btree == e.btree) by {
            follow_keeps_btree(src, links, e);
        }
        steps_go_through(src, root, next, r.0, r.1, q);
    }
}

/// Following links adds no page to the tree.
pub proof fn follow_keeps_btree(src: Pages, links: Seq<Link>, w: Walk)
    ensures
        follow(src, links, w) matches Ok(u) ==> u.btree == w.btree,
    decreases links.len(),
{
    if links.len() > 0 {
        match links.first() {
            Link::Fault(_) => {},
            Link::Child(p) => {
                follow_keeps_btree(
                    src,
                    links.drop_first(),
                    Walk { stack: w.stack.push(p), ..w },
                );
            },
            Link::Chain { first, rest } => {
                if let Ok(t) = chain(src, first, rest, Trail { seen: w.seen, pages: w.overflow }) {
                    follow_keeps_btree(
                        src,
                        links.drop_first(),
                        Walk { seen: t.seen, overflow: t.pages, ..w },
                    );
                }
            },
        }
    }
}

/// A tree that is in order can be walked, whatever its size and its depth.
pub proof fn tree_in_order_is_walked(src: Pages, root: u32)
    requires
        480 <= src.header.usable(),
        tree_in_order(src, root),
    ensures
        walk(src, root) is Ok,
{
    let w = walk_start(src, root);
    assert(leads(src, root, root, 0));
    assert(reachable(src, root, root));
    let page = (src.read)(root)->Ok_0;
    let links = page_links(root, page, src.header.usable());
    let e = enter(w, root);
    let used = Set::<Spot>::empty();
    let at = Seq::<Spot>::empty();
    assert(w.stack.last() == root);
    assert(e.stack =~= Seq::empty());
    assert(e.btree =~= seq![root]);
    assert(e.btree[0] == root);
    assert(on_course(src, root, e, used, at, root, 0)) by {
        assert forall|q: u32| #[trigger] e.btree.contains(q) implies 1 <= q <= e.seen.len()
            && e.seen[q - 1] by {
            let k = choose|k: int| 0 <= k < e.btree.len() && e.btree[k] == q;
            assert(k == 0);
        }
    }
    let r = links_go_through(src, root, root, 0, e, used, at);
    assert(links.skip(0) =~= links);
    let next = follow(src, links, e)->Ok_0;
    follow_keeps_btree(src, links, e);
    assert(on_course(src, root, next, r.0, r.1, root, links.len()));
    steps_go_through(src, root, next, r.0, r.1, root);
    unseen_update(w.seen, root - 1);
    follow_meets(src, links, e);
}

} // verus!
