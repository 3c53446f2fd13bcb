//! What a successful walk of a b-tree means.

use vstd::multiset::Multiset;
use vstd::prelude::*;
use vstd::seq_lib::group_to_multiset_ensures;

use crate::btree::links::page_links;
use crate::btree::links::Link;
use crate::btree::walk::chain;
use crate::btree::walk::enter;
use crate::btree::walk::follow;
use crate::btree::walk::follow_meets;
use crate::btree::walk::unseen;
use crate::btree::walk::unseen_update;
use crate::btree::walk::walk;
use crate::btree::walk::walk_on;
use crate::btree::walk::walk_start;
use crate::btree::walk::BtreePagesView;
use crate::btree::walk::Trail;
use crate::btree::walk::Walk;
use crate::bytes::be32;
use crate::dbfile::Pages;
use crate::error::ErrorView;
use crate::order::ascending;
use crate::order::ascending_facts;

verus! {

/// Page `p` can be read, and refers to `link`.
pub open spec fn refers(src: Pages, p: u32, link: Link) -> bool {
    (src.read)(p) matches Ok(page) && page_links(p, page, src.header.usable()).contains(link)
}

/// Page `p` can be read, and everything in it that the walk looks at is in order.
pub open spec fn sound(src: Pages, p: u32) -> bool {
    (src.read)(p) is Ok && forall|e: ErrorView| !#[trigger] refers(src, p, Link::Fault(e))
}

/// Page number `k` of the overflow chain that starts at `next` and carries `rest` payload
/// bytes.
pub open spec fn chain_page(src: Pages, next: u32, rest: nat, k: nat) -> Option<u32>
    decreases k,
{
    let capacity = src.header.usable() - 4;
    if next == 0 {
        None
    } else if k == 0 {
        Some(next)
    } else {
        match (src.read)(next) {
            Ok(page) => if page.len() >= 4 && rest > capacity {
                chain_page(src, be32(page, 0), (rest - capacity) as nat, (k - 1) as nat)
            } else {
                None
            },
            Err(_) => None,
        }
    }
}

/// Page `p` lies on the overflow chain that starts at `next` and carries `rest` bytes.
pub open spec fn on_chain(src: Pages, next: u32, rest: nat, p: u32) -> bool {
    exists|k: nat| #[trigger] chain_page(src, next, rest, k) == Some(p)
}

/// Page `p` lies on an overflow chain among `links`.
pub open spec fn spilled_to(src: Pages, links: Seq<Link>, p: u32) -> bool {
    exists|i: int|
        0 <= i < links.len() && (#[trigger] links[i] matches Link::Chain { first, rest }
            && on_chain(src, first, rest, p))
}

/// Page `p` lies on an overflow chain of page `q`.
pub open spec fn spills(src: Pages, q: u32, p: u32) -> bool {
    (src.read)(q) matches Ok(page) && spilled_to(src, page_links(q, page, src.header.usable()), p)
}

/// The pages met are exactly those collected, each once, either as b-tree or as overflow.
spec fn tidy(seen: Seq<bool>, btree: Seq<u32>, overflow: Seq<u32>) -> bool {
    &&& btree.no_duplicates()
    &&& overflow.no_duplicates()
    &&& forall|p: u32| !(#[trigger] btree.contains(p) && overflow.contains(p))
    &&& forall|p: u32| #[trigger] btree.contains(p) ==> 1 <= p <= seen.len() && seen[p - 1]
    &&& forall|p: u32| #[trigger] overflow.contains(p) ==> 1 <= p <= seen.len() && seen[p - 1]
}

proof fn push_contains(s: Seq<u32>, a: u32)
    ensures
        forall|p: u32| #[trigger] s.push(a).contains(p) <==> s.contains(p) || p == a,
        s.no_duplicates() && !s.contains(a) ==> s.push(a).no_duplicates(),
{
    assert forall|p: u32| #[trigger] s.push(a).contains(p) <==> s.contains(p) || p == a by {
        if s.contains(p) {
            let i = choose|i: int| 0 <= i < s.len() && s[i] == p;
            assert(s.push(a)[i] == p);
        }
        if p == a {
            assert(s.push(a)[s.len() as int] == p);
        }
    }
}

proof fn tidy_overflow(seen: Seq<bool>, btree: Seq<u32>, overflow: Seq<u32>, p: u32)
    requires
        tidy(seen, btree, overflow),
        1 <= p <= seen.len(),
        !seen[p - 1],
    ensures
        tidy(seen.update(p - 1, true), btree, overflow.push(p)),
{
    push_contains(overflow, p);
}

proof fn tidy_btree(seen: Seq<bool>, btree: Seq<u32>, overflow: Seq<u32>, p: u32)
    requires
        tidy(seen, btree, overflow),
        1 <= p <= seen.len(),
        !seen[p - 1],
    ensures
        tidy(seen.update(p - 1, true), btree.push(p), overflow),
{
    push_contains(btree, p);
}

proof fn on_chain_step(src: Pages, next: u32, rest: nat, page: Seq<u8>, p: u32)
    requires
        next != 0,
        (src.read)(next) == Ok::<Seq<u8>, ErrorView>(page),
        page.len() >= 4,
    ensures
        on_chain(src, next, rest, p) <==> p == next || (rest > src.header.usable() - 4 && on_chain(
            src,
            be32(page, 0),
            (rest - (src.header.usable() - 4)) as nat,
            p,
        )),
{
    let capacity = src.header.usable() - 4;
    if on_chain(src, next, rest, p) {
        let k = choose|k: nat| #[trigger] chain_page(src, next, rest, k) == Some(p);
        if k > 0 {
            assert(chain_page(src, be32(page, 0), (rest - capacity) as nat, (k - 1) as nat)
                == Some(p));
        }
    }
    if p == next {
        assert(chain_page(src, next, rest, 0) == Some(p));
    }
    if rest > capacity && on_chain(src, be32(page, 0), (rest - capacity) as nat, p) {
        let k = choose|k: nat| #[trigger]
            chain_page(src, be32(page, 0), (rest - capacity) as nat, k) == Some(p);
        assert(chain_page(src, next, rest, k + 1) == Some(p));
    }
}

proof fn chain_facts(src: Pages, next: u32, rest: nat, t: Trail, btree: Seq<u32>)
    requires
        tidy(t.seen, btree, t.pages),
    ensures
        chain(src, next, rest, t) matches Ok(u) ==> {
            &&& tidy(u.seen, btree, u.pages)
            &&& u.seen.len() == t.seen.len()
            &&& forall|p: u32| #[trigger]
                u.pages.contains(p) <==> t.pages.contains(p) || on_chain(src, next, rest, p)
        },
    decreases unseen(t.seen),
{
    if chain(src, next, rest, t) is Ok {
        let capacity = src.header.usable() - 4;
        let page = (src.read)(next)->Ok_0;
        let met = Trail { seen: t.seen.update(next - 1, true), pages: t.pages.push(next) };
        unseen_update(t.seen, next - 1);
        tidy_overflow(t.seen, btree, t.pages, next);
        push_contains(t.pages, next);
        assert forall|p: u32|
            on_chain(src, next, rest, p) <==> p == next || (rest > capacity && #[trigger] on_chain(
                src,
                be32(page, 0),
                (rest - capacity) as nat,
                p,
            )) by {
            on_chain_step(src, next, rest, page, p);
        }
        if rest > capacity {
            chain_facts(src, be32(page, 0), (rest - capacity) as nat, met, btree);
            let u = chain(src, next, rest, t)->Ok_0;
            assert forall|p: u32| #[trigger] u.pages.contains(p) <==> t.pages.contains(p)
                || on_chain(src, next, rest, p) by {
                on_chain_step(src, next, rest, page, p);
                assert(u.pages.contains(p) <==> met.pages.contains(p) || on_chain(
                    src,
                    be32(page, 0),
                    (rest - capacity) as nat,
                    p,
                ));
                assert(met.pages.contains(p) <==> t.pages.contains(p) || p == next);
            }
        } else {
            assert forall|p: u32| #[trigger] met.pages.contains(p) <==> t.pages.contains(p)
                || on_chain(src, next, rest, p) by {
                on_chain_step(src, next, rest, page, p);
            }
        }
    }
}

proof fn first_or_later(links: Seq<Link>, l: Link)
    requires
        links.len() > 0,
    ensures
        links.contains(l) <==> l == links.first() || links.drop_first().contains(l),
{
    let rest = links.drop_first();
    if links.contains(l) {
        let i = choose|i: int| 0 <= i < links.len() && links[i] == l;
        if i > 0 {
            assert(rest[i - 1] == l);
        }
    }
    if rest.contains(l) {
        let i = choose|i: int| 0 <= i < rest.len() && rest[i] == l;
        assert(links[i + 1] == l);
    }
    if l == links.first() {
        assert(links[0] == l);
    }
}

proof fn spilled_first_or_later(src: Pages, links: Seq<Link>, p: u32)
    requires
        links.len() > 0,
    ensures
        spilled_to(src, links, p) <==> (links.first() matches Link::Chain { first, rest }
            && on_chain(src, first, rest, p)) || spilled_to(src, links.drop_first(), p),
{
    let later = links.drop_first();
    if spilled_to(src, links, p) {
        let i = choose|i: int|
            0 <= i < links.len() && (#[trigger] links[i] matches Link::Chain { first, rest }
                && on_chain(src, first, rest, p));
        if i > 0 {
            assert(later[i - 1] == links[i]);
        }
    }
    if spilled_to(src, later, p) {
        let i = choose|i: int|
            0 <= i < later.len() && (#[trigger] later[i] matches Link::Chain { first, rest }
                && on_chain(src, first, rest, p));
        assert(links[i + 1] == later[i]);
    }
    if links.first() is Chain {
        assert(links[0] is Chain);
    }
}

/// What following all of `links` did, from `w` to `u`.
spec fn followed(src: Pages, links: Seq<Link>, w: Walk, u: Walk) -> bool {
    &&& tidy(u.seen, u.btree, u.overflow)
    &&& u.seen.len() == w.seen.len()
    &&& u.btree == w.btree
    &&& forall|e: ErrorView| !#[trigger] links.contains(Link::Fault(e))
    &&& forall|q: u32| #[trigger]
        u.stack.contains(q) <==> w.stack.contains(q) || links.contains(Link::Child(q))
    &&& forall|p: u32| #[trigger]
        u.overflow.contains(p) <==> w.overflow.contains(p) || spilled_to(src, links, p)
}

proof fn follow_facts(src: Pages, links: Seq<Link>, w: Walk)
    requires
        tidy(w.seen, w.btree, w.overflow),
    ensures
        follow(src, links, w) matches Ok(u) ==> followed(src, links, w, u),
    decreases links.len(),
{
    if follow(src, links, w) is Ok && links.len() > 0 {
        let u = follow(src, links, w)->Ok_0;
        let later = links.drop_first();
        assert forall|e: ErrorView| !later.contains(Link::Fault(e)) implies !#[trigger]
            links.contains(Link::Fault(e)) by {
            first_or_later(links, Link::Fault(e));
        }
        match links.first() {
            Link::Fault(e) => {},
            Link::Child(c) => {
                let v = Walk { stack: w.stack.push(c), ..w };
                follow_facts(src, later, v);
                push_contains(w.stack, c);
                assert forall|q: u32| #[trigger] u.stack.contains(q) <==> w.stack.contains(q)
                    || links.contains(Link::Child(q)) by {
                    first_or_later(links, Link::Child(q));
                    assert(v.stack.contains(q) <==> w.stack.contains(q) || q == c);
                }
                assert forall|p: u32| #[trigger] u.overflow.contains(p) <==> w.overflow.contains(p)
                    || spilled_to(src, links, p) by {
                    spilled_first_or_later(src, links, p);
                }
            },
            Link::Chain { first, rest } => {
                let t0 = Trail { seen: w.seen, pages: w.overflow };
                chain_facts(src, first, rest, t0, w.btree);
                let t = chain(src, first, rest, t0)->Ok_0;
                let v = Walk { seen: t.seen, overflow: t.pages, ..w };
                follow_facts(src, later, v);
                assert forall|q: u32| #[trigger] u.stack.contains(q) <==> w.stack.contains(q)
                    || links.contains(Link::Child(q)) by {
                    first_or_later(links, Link::Child(q));
                }
                assert forall|p: u32| #[trigger] u.overflow.contains(p) <==> w.overflow.contains(p)
                    || spilled_to(src, links, p) by {
                    spilled_first_or_later(src, links, p);
                    assert(t.pages.contains(p) <==> w.overflow.contains(p) || on_chain(
                        src,
                        first,
                        rest,
                        p,
                    ));
                }
            },
        }
    }
}

/// Some `k` child pointers, one after the other, lead from page `root` to page `p`.
pub open spec fn leads(src: Pages, root: u32, p: u32, k: nat) -> bool
    decreases k,
{
    if k == 0 {
        p == root
    } else {
        exists|q: u32|
            leads(src, root, q, (k - 1) as nat) && #[trigger] refers(src, q, Link::Child(p))
    }
}

/// Child pointers lead from page `root` to page `p`.
pub open spec fn reachable(src: Pages, root: u32, p: u32) -> bool {
    exists|k: nat| leads(src, root, p, k)
}

/// `p` lies on an overflow chain of a page of `btree`.
pub open spec fn spilled_by(src: Pages, btree: Seq<u32>, p: u32) -> bool {
    exists|q: u32| #[trigger] btree.contains(q) && spills(src, q, p)
}

/// What holds of a walk between two pages.
spec fn coherent(src: Pages, root: u32, w: Walk) -> bool {
    &&& tidy(w.seen, w.btree, w.overflow)
    &&& w.seen.len() == src.header.page_count
    &&& w.btree.contains(root) || w.stack.contains(root)
    &&& forall|p: u32| #[trigger] w.btree.contains(p) ==> sound(src, p)
    &&& forall|p: u32, q: u32|
        #![trigger w.btree.contains(p), refers(src, p, Link::Child(q))]
        w.btree.contains(p) && refers(src, p, Link::Child(q)) ==> w.btree.contains(q)
            || w.stack.contains(q)
    &&& forall|p: u32| #[trigger] w.btree.contains(p) ==> reachable(src, root, p)
    &&& forall|p: u32| #[trigger] w.stack.contains(p) ==> reachable(src, root, p)
    &&& forall|p: u32| #[trigger] w.overflow.contains(p) <==> spilled_by(src, w.btree, p)
}

proof fn drop_last_contains(s: Seq<u32>)
    requires
        s.len() > 0,
    ensures
        forall|p: u32| #[trigger] s.contains(p) <==> s.drop_last().contains(p) || p == s.last(),
{
    push_contains(s.drop_last(), s.last());
    assert(s.drop_last().push(s.last()) =~= s);
}

proof fn step_coherent(src: Pages, root: u32, w: Walk, page: Seq<u8>, u: Walk)
    requires
        coherent(src, root, w),
        w.stack.len() > 0,
        1 <= w.stack.last() <= w.seen.len(),
        !w.seen[w.stack.last() - 1],
        (src.read)(w.stack.last()) == Ok::<Seq<u8>, ErrorView>(page),
        follow(
            src,
            page_links(w.stack.last(), page, src.header.usable()),
            enter(w, w.stack.last()),
        ) == Ok::<Walk, ErrorView>(u),
    ensures
        coherent(src, root, u),
{
    let at = w.stack.last();
    let v = enter(w, at);
    let links = page_links(at, page, src.header.usable());
    tidy_btree(w.seen, w.btree, w.overflow, at);
    follow_facts(src, links, v);
    push_contains(w.btree, at);
    drop_last_contains(w.stack);
    assert forall|p: u32| #[trigger] u.btree.contains(p) implies sound(src, p) by {
        if p != at {
            assert(w.btree.contains(p));
        } else {
            assert forall|e: ErrorView| !#[trigger] refers(src, p, Link::Fault(e)) by {
                assert(!links.contains(Link::Fault(e)));
            }
        }
    }
    assert forall|p: u32, q: u32|
        #![trigger u.btree.contains(p), refers(src, p, Link::Child(q))]
        u.btree.contains(p) && refers(src, p, Link::Child(q)) implies u.btree.contains(q)
        || u.stack.contains(q) by {
        if p != at {
            assert(w.btree.contains(p));
            assert(w.btree.contains(q) || w.stack.contains(q));
        }
        assert(u.stack.contains(q) <==> v.stack.contains(q) || links.contains(Link::Child(q)));
    }
    assert forall|p: u32| #[trigger] u.btree.contains(p) implies reachable(src, root, p) by {
        if p != at {
            assert(w.btree.contains(p));
        } else {
            assert(w.stack.contains(at));
        }
    }
    assert forall|p: u32| #[trigger] u.stack.contains(p) implies reachable(src, root, p) by {
        if v.stack.contains(p) {
            assert(w.stack.contains(p));
        } else {
            assert(w.stack.contains(at));
            let k = choose|k: nat| leads(src, root, at, k);
            assert(leads(src, root, at, k) && refers(src, at, Link::Child(p)));
            assert(leads(src, root, p, k + 1));
        }
    }
    assert forall|p: u32| #[trigger] u.overflow.contains(p) <==> spilled_by(
        src,
        u.btree,
        p,
    ) by {
        assert(u.overflow.contains(p) <==> w.overflow.contains(p) || spilled_to(src, links, p));
        if w.overflow.contains(p) {
            let q = choose|q: u32| #[trigger] w.btree.contains(q) && spills(src, q, p);
            assert(u.btree.contains(q));
        }
        if spilled_to(src, links, p) {
            assert(u.btree.contains(at) && spills(src, at, p));
        }
        if spilled_by(src, u.btree, p) {
            let q = choose|q: u32| #[trigger] u.btree.contains(q) && spills(src, q, p);
            if q != at {
                assert(w.btree.contains(q));
            }
        }
    }
    assert(u.btree.contains(root) || u.stack.contains(root)) by {
        if w.btree.contains(root) {
        } else if root != at {
            assert(v.stack.contains(root));
        }
    }
}

proof fn walk_coherent(src: Pages, root: u32, w: Walk)
    requires
        coherent(src, root, w),
    ensures
        walk_on(src, w) matches Ok(u) ==> coherent(src, root, u) && u.stack.len() == 0,
    decreases unseen(w.seen),
{
    if w.stack.len() > 0 && walk_on(src, w) is Ok {
        let p = w.stack.last();
        let page = (src.read)(p)->Ok_0;
        let links = page_links(p, page, src.header.usable());
        unseen_update(w.seen, p - 1);
        follow_meets(src, links, enter(w, p));
        let next = follow(src, links, enter(w, p))->Ok_0;
        step_coherent(src, root, w, page, next);
        walk_coherent(src, root, next);
    }
}

proof fn reachable_collected(src: Pages, root: u32, btree: Seq<u32>, p: u32, k: nat)
    requires
        btree.contains(root),
        forall|p: u32, q: u32|
            #![trigger btree.contains(p), refers(src, p, Link::Child(q))]
            btree.contains(p) && refers(src, p, Link::Child(q)) ==> btree.contains(q),
        leads(src, root, p, k),
    ensures
        btree.contains(p),
    decreases k,
{
    if k > 0 {
        let q = choose|q: u32|
            leads(src, root, q, (k - 1) as nat) && #[trigger] refers(src, q, Link::Child(p));
        reachable_collected(src, root, btree, q, (k - 1) as nat);
    }
}

/// What a successful walk of a b-tree returns: exactly the pages that child pointers lead to
/// from the root, and exactly the pages on the overflow chains of those; each once, in
/// ascending order. All of them are pages of the database, none is both, and everything that
/// the walk looks at on them is in order.
pub proof fn walk_is_exact(src: Pages, root: u32, r: BtreePagesView)
    requires
        walk(src, root) == Ok::<BtreePagesView, ErrorView>(r),
    ensures
        forall|i: int, j: int| 0 <= i < j < r.btree.len() ==> r.btree[i] < r.btree[j],
        forall|i: int, j: int| 0 <= i < j < r.overflow.len() ==> r.overflow[i] < r.overflow[j],
        forall|p: u32| #[trigger] r.btree.contains(p) <==> reachable(src, root, p),
        forall|p: u32| #[trigger] r.overflow.contains(p) <==> spilled_by(src, r.btree, p),
        forall|p: u32| #[trigger]
            r.btree.contains(p) ==> 1 <= p <= src.header.page_count && sound(src, p),
        forall|p: u32| #[trigger] r.overflow.contains(p) ==> 1 <= p <= src.header.page_count,
        forall|p: u32| !(#[trigger] r.btree.contains(p) && r.overflow.contains(p)),
        r.btree.contains(root),
{
    let w0 = walk_start(src, root);
    assert(w0.stack[0] == root);
    assert(leads(src, root, root, 0));
    assert forall|p: u32| !#[trigger] spilled_by(src, w0.btree, p) by {}
    walk_coherent(src, root, w0);
    let w = walk_on(src, w0)->Ok_0;
    ascending_facts(w.btree);
    ascending_facts(w.overflow);
    assert(r.btree == ascending(w.btree) && r.overflow == ascending(w.overflow));
    assert forall|i: int, j: int| 0 <= i < j < r.btree.len() implies r.btree[i] < r.btree[j] by {
        assert(r.btree[i] != r.btree[j]);
    }
    assert forall|i: int, j: int| 0 <= i < j < r.overflow.len() implies r.overflow[i]
        < r.overflow[j] by {
        assert(r.overflow[i] != r.overflow[j]);
    }
    assert forall|p: u32| #[trigger] r.btree.contains(p) implies 1 <= p
        <= src.header.page_count && sound(src, p) by {
        assert(w.btree.contains(p));
    }
    assert(r.btree.contains(root)) by {
        assert(w.btree.contains(root) || w.stack.contains(root));
    }
    assert forall|p: u32| #[trigger] r.btree.contains(p) <==> reachable(src, root, p) by {
        if r.btree.contains(p) {
            assert(w.btree.contains(p));
        }
        if reachable(src, root, p) {
            let k = choose|k: nat| leads(src, root, p, k);
            assert forall|p: u32, q: u32|
                #![trigger r.btree.contains(p), refers(src, p, Link::Child(q))]
                r.btree.contains(p) && refers(src, p, Link::Child(q)) implies r.btree.contains(
                q,
            ) by {
                assert(w.btree.contains(p));
                assert(w.btree.contains(q) || w.stack.contains(q));
            }
            reachable_collected(src, root, r.btree, p, k);
        }
    }
    assert forall|p: u32| #[trigger] r.overflow.contains(p) <==> spilled_by(src, r.btree, p) by {
        assert(w.overflow.contains(p) <==> spilled_by(src, w.btree, p));
        if spilled_by(src, w.btree, p) {
            let q = choose|q: u32| #[trigger] w.btree.contains(q) && spills(src, q, p);
            assert(r.btree.contains(q));
        }
        if spilled_by(src, r.btree, p) {
            let q = choose|q: u32| #[trigger] r.btree.contains(q) && spills(src, q, p);
            assert(w.btree.contains(q));
        }
    }
}

// ---------------------------------------------------------------------------------------
// One reference each
// ---------------------------------------------------------------------------------------
/// The child pages among `links`, each as often as it occurs.
pub open spec fn children_in(links: Seq<Link>) -> Multiset<u32>
    decreases links.len(),
{
    if links.len() == 0 {
        Multiset::empty()
    } else {
        let rest = children_in(links.drop_first());
        match links.first() {
            Link::Child(p) => rest.insert(p),
            _ => rest,
        }
    }
}

/// The child pages of page `p`.
pub open spec fn children_of(src: Pages, p: u32) -> Multiset<u32> {
    match (src.read)(p) {
        Ok(page) => children_in(page_links(p, page, src.header.usable())),
        Err(_) => Multiset::empty(),
    }
}

/// The child pages of all of `pages`, each as often as it is referred to.
pub open spec fn all_children(src: Pages, pages: Seq<u32>) -> Multiset<u32>
    decreases pages.len(),
{
    if pages.len() == 0 {
        Multiset::empty()
    } else {
        all_children(src, pages.drop_last()).add(children_of(src, pages.last()))
    }
}

proof fn follow_stacks_children(src: Pages, links: Seq<Link>, w: Walk)
    ensures
        follow(src, links, w) matches Ok(u) ==> u.btree == w.btree && u.stack.to_multiset()
            =~= w.stack.to_multiset().add(children_in(links)),
    decreases links.len(),
{
    broadcast use group_to_multiset_ensures;

    if links.len() > 0 {
        match links.first() {
            Link::Fault(_) => {},
            Link::Child(p) => {
                follow_stacks_children(
                    src,
                    links.drop_first(),
                    Walk { stack: w.stack.push(p), ..w },
                );
            },
            Link::Chain { first, rest } => {
                let t0 = Trail { seen: w.seen, pages: w.overflow };
                if let Ok(t) = chain(src, first, rest, t0) {
                    follow_stacks_children(
                        src,
                        links.drop_first(),
                        Walk { seen: t.seen, overflow: t.pages, ..w },
                    );
                }
            },
        }
    }
}

/// Every page on the stack or visited is the root, or was referred to by a page visited.
spec fn balanced(src: Pages, root: u32, w: Walk) -> bool {
    w.btree.to_multiset().add(w.stack.to_multiset()) =~= all_children(src, w.btree).insert(root)
}

proof fn walk_balances(src: Pages, root: u32, w: Walk)
    requires
        balanced(src, root, w),
    ensures
        walk_on(src, w) matches Ok(u) ==> balanced(src, root, u) && u.stack.len() == 0,
    decreases unseen(w.seen),
{
    broadcast use group_to_multiset_ensures;

    if w.stack.len() > 0 && walk_on(src, w) is Ok {
        let p = w.stack.last();
        let page = (src.read)(p)->Ok_0;
        let links = page_links(p, page, src.header.usable());
        let entered = enter(w, p);
        unseen_update(w.seen, p - 1);
        follow_meets(src, links, entered);
        follow_stacks_children(src, links, entered);
        let next = follow(src, links, entered)->Ok_0;
        assert(w.stack =~= entered.stack.push(p));
        assert(entered.btree.drop_last() =~= w.btree);
        assert(entered.btree == w.btree.push(p));
        assert(all_children(src, next.btree) == all_children(src, w.btree).add(
            children_in(links),
        ));
        assert(next.btree.to_multiset() =~= w.btree.to_multiset().insert(p));
        assert(w.stack.to_multiset() =~= entered.stack.to_multiset().insert(p));
        assert(next.stack.to_multiset() =~= entered.stack.to_multiset().add(children_in(links)));
        assert(next.btree.to_multiset().add(next.stack.to_multiset())
            =~= w.btree.to_multiset().add(w.stack.to_multiset()).add(children_in(links)));
        assert(all_children(src, w.btree).insert(root).add(children_in(links)) =~= all_children(
            src,
            next.btree,
        ).insert(root));
        assert(balanced(src, root, next));
        walk_balances(src, root, next);
    }
}

proof fn all_children_remove(src: Pages, pages: Seq<u32>, i: int)
    requires
        0 <= i < pages.len(),
    ensures
        all_children(src, pages) =~= all_children(src, pages.remove(i)).add(
            children_of(src, pages[i]),
        ),
    decreases pages.len(),
{
    if i == pages.len() - 1 {
        assert(pages.remove(i) =~= pages.drop_last());
    } else {
        all_children_remove(src, pages.drop_last(), i);
        assert(pages.remove(i).drop_last() =~= pages.drop_last().remove(i));
        assert(pages.remove(i).last() == pages.last());
    }
}

proof fn all_children_unordered(src: Pages, a: Seq<u32>, b: Seq<u32>)
    requires
        a.to_multiset() == b.to_multiset(),
    ensures
        all_children(src, a) == all_children(src, b),
    decreases a.len(),
{
    broadcast use group_to_multiset_ensures;

    assert(a.len() == a.to_multiset().len() == b.to_multiset().len() == b.len());
    if a.len() > 0 {
        let p = a.last();
        let n = a.len() - 1;
        assert(a.contains(p));
        assert(a.to_multiset().count(p) > 0);
        assert(b.to_multiset().count(p) > 0);
        assert(b.contains(p));
        let i = choose|i: int| 0 <= i < b.len() && b[i] == p;
        assert(a.remove(n) =~= a.drop_last());
        assert(a.drop_last().to_multiset() =~= a.to_multiset().remove(p));
        assert(b.remove(i).to_multiset() =~= b.to_multiset().remove(p));
        all_children_unordered(src, a.drop_last(), b.remove(i));
        all_children_remove(src, b, i);
    }
}

/// What a walk accepts is a tree: no page of it refers to the root, and every other page of it
/// is referred to once.
pub proof fn walked_pages_form_a_tree(src: Pages, root: u32, r: BtreePagesView)
    requires
        walk(src, root) == Ok::<BtreePagesView, ErrorView>(r),
    ensures
        all_children(src, r.btree).count(root) == 0,
        forall|p: u32|
            p != root && r.btree.contains(p) ==> #[trigger] all_children(src, r.btree).count(p)
                == 1,
{
    broadcast use group_to_multiset_ensures;

    let w0 = walk_start(src, root);
    assert(w0.stack =~= Seq::<u32>::empty().push(root));
    assert(balanced(src, root, w0));
    walk_balances(src, root, w0);
    walk_is_exact(src, root, r);
    let w = walk_on(src, w0)->Ok_0;
    ascending_facts(w.btree);
    all_children_unordered(src, w.btree, r.btree);
    let all = all_children(src, r.btree);
    assert(w.stack =~= Seq::<u32>::empty());
    assert(r.btree.to_multiset() =~= all.insert(root));
    assert(r.btree.no_duplicates()) by {
        assert forall|i: int, j: int|
            0 <= i < r.btree.len() && 0 <= j < r.btree.len() && i != j implies r.btree[i]
            != r.btree[j] by {
            if i < j {
                assert(r.btree[i] < r.btree[j]);
            } else {
                assert(r.btree[j] < r.btree[i]);
            }
        }
    }
    r.btree.lemma_multiset_has_no_duplicates();
    assert(r.btree.contains(root));
    assert(all.insert(root).count(root) == all.count(root) + 1);
    assert(r.btree.to_multiset().count(root) == 1);
    assert forall|p: u32| p != root && r.btree.contains(p) implies #[trigger] all.count(p) == 1 by {
        assert(all.insert(root).count(p) == all.count(p));
        assert(r.btree.to_multiset().count(p) == 1);
    }
}

} // verus!
