//! What a b-tree page refers to, said of its bytes: which pages are its children, and which of
//! its cells spill into overflow chains.

use vstd::prelude::*;

use crate::btree::links::cell_links;
use crate::btree::links::cells_links;
use crate::btree::links::links_in_cell;
use crate::btree::links::local_len;
use crate::btree::links::page_links;
use crate::btree::links::payload_links;
use crate::btree::links::Link;
use crate::btree::reach::leads;
use crate::btree::reach::reachable;
use crate::btree::reach::refers;
use crate::btree::reach::sound;
use crate::btree::reach::walk_is_exact;
use crate::btree::walk::chain;
use crate::btree::walk::unseen;
use crate::btree::walk::unseen_update;
use crate::btree::walk::walk;
use crate::btree::walk::BtreePagesView;
use crate::btree::walk::Trail;
use crate::bytes::be16;
use crate::bytes::be32;
use crate::dbfile::Pages;
use crate::error::ErrorView;
use crate::record::varint;

verus! {

// ---------------------------------------------------------------------------------------
// Bytes
// ---------------------------------------------------------------------------------------
/// Numbers are stored with the most significant byte first.
pub proof fn numbers_are_big_endian(s: Seq<u8>, at: int)
    requires
        0 <= at,
        at + 4 <= s.len(),
    ensures
        be16(s, at) == s[at] * 256 + s[at + 1],
        be32(s, at) == be16(s, at) * 65536 + be16(s, at + 2),
{
}

// ---------------------------------------------------------------------------------------
// Children
// ---------------------------------------------------------------------------------------
/// The child pages among `links`, in order.
pub open spec fn child_pages(links: Seq<Link>) -> Seq<u32>
    decreases links.len(),
{
    if links.len() == 0 {
        Seq::empty()
    } else {
        let before = child_pages(links.drop_last());
        match links.last() {
            Link::Child(p) => before.push(p),
            _ => before,
        }
    }
}

/// The child pages among a single link, or none.
pub proof fn child_pages_of_one(links: Seq<Link>)
    requires
        links.len() <= 1,
    ensures
        links.len() == 1 && links[0] is Child ==> child_pages(links) == seq![links[0]->Child_0],
        links.len() == 0 || !(links[0] is Child) ==> child_pages(links) == Seq::<u32>::empty(),
{
    reveal_with_fuel(child_pages, 2);
    if links.len() == 1 {
        assert(links.last() == links[0]);
        if links[0] is Child {
            assert(child_pages(links) =~= seq![links[0]->Child_0]);
        }
    }
}

/// None of `links` is a fault.
pub open spec fn faultless(links: Seq<Link>) -> bool {
    forall|i: int| 0 <= i < links.len() ==> !((#[trigger] links[i]) is Fault)
}

/// The child pages of two lists of links are those of the one and then those of the other.
pub proof fn child_pages_concat(a: Seq<Link>, b: Seq<Link>)
    ensures
        child_pages(a + b) == child_pages(a) + child_pages(b),
    decreases b.len(),
{
    if b.len() == 0 {
        assert(a + b =~= a);
        assert(child_pages(a) + child_pages(b) =~= child_pages(a));
    } else {
        child_pages_concat(a, b.drop_last());
        assert((a + b).drop_last() =~= a + b.drop_last());
        assert((a + b).last() == b.last());
        assert(child_pages(a + b) =~= child_pages(a) + child_pages(b));
    }
}

proof fn faultless_concat(a: Seq<Link>, b: Seq<Link>)
    ensures
        faultless(a + b) <==> faultless(a) && faultless(b),
{
    if faultless(a + b) {
        assert forall|i: int| 0 <= i < a.len() implies !((#[trigger] a[i]) is Fault) by {
            assert((a + b)[i] == a[i]);
        }
        assert forall|i: int| 0 <= i < b.len() implies !((#[trigger] b[i]) is Fault) by {
            assert((a + b)[a.len() + i] == b[i]);
        }
    }
}

/// Where the b-tree header of page `p` lies: behind the file header on page 1.
pub open spec fn header_at(p: u32) -> int {
    if p == 1 {
        100
    } else {
        0
    }
}

/// Where cell `i` of `page` lies; the cell pointers follow a header of `header_len` bytes.
pub open spec fn cell_at(p: u32, page: Seq<u8>, header_len: int, i: int) -> int {
    be16(page, header_at(p) + header_len + 2 * i) as int
}

/// Is `page` an interior page, of an index or of a table?
pub open spec fn is_interior_page(p: u32, page: Seq<u8>) -> bool {
    page[header_at(p)] == 2 || page[header_at(p)] == 5
}

/// Is `page` a leaf, of an index or of a table?
pub open spec fn is_leaf_page(p: u32, page: Seq<u8>) -> bool {
    page[header_at(p)] == 10 || page[header_at(p)] == 13
}

/// The number of cells on `page`.
pub open spec fn cell_count(p: u32, page: Seq<u8>) -> nat {
    be16(page, header_at(p) + 3)
}

proof fn one_child(link: Link, rest: Seq<Link>)
    requires
        link is Child,
    ensures
        child_pages(seq![link] + rest) == seq![link->Child_0] + child_pages(rest),
{
    child_pages_concat(seq![link], rest);
    child_pages_of_one(seq![link]);
}

proof fn payload_has_no_child(cell: Seq<u8>, start: nat, len: nat, limit: int, usable: int)
    ensures
        child_pages(payload_links(cell, start, len, limit, usable)) == Seq::<u32>::empty(),
{
    child_pages_of_one(payload_links(cell, start, len, limit, usable));
}

proof fn fault_has_no_child(links: Seq<Link>)
    requires
        links.len() == 1,
        links[0] is Fault,
    ensures
        child_pages(links) == Seq::<u32>::empty(),
        !faultless(links),
{
    child_pages_of_one(links);
}

proof fn cell_children(p: u32, page: Seq<u8>, i: nat, usable: int)
    requires
        header_at(p) + 5 <= page.len(),
        is_interior_page(p, page) || is_leaf_page(p, page),
        faultless(cell_links(p, page, i, usable)),
    ensures
        is_interior_page(p, page) ==> child_pages(cell_links(p, page, i, usable)) == seq![
            be32(page, cell_at(p, page, 12, i as int)),
        ] && header_at(p) + 12 + 2 * i + 2 <= page.len() && cell_at(p, page, 12, i as int) + 4
            <= page.len(),
        is_leaf_page(p, page) ==> child_pages(cell_links(p, page, i, usable)) == Seq::<
            u32,
        >::empty() && header_at(p) + 8 + 2 * i + 2 <= page.len() && cell_at(p, page, 8, i as int)
            < page.len(),
{
    let kind = page[header_at(p)];
    let links = cell_links(p, page, i, usable);
    let hl: int = if is_interior_page(p, page) {
        12
    } else {
        8
    };
    let at = header_at(p) + hl + 2 * i;
    if links.len() == 1 && links[0] is Fault {
        fault_has_no_child(links);
    }
    let off = be16(page, at) as int;
    let cell = page.skip(off);
    assert(links == links_in_cell(p, kind, cell, usable));
    if kind == 2 || kind == 5 {
        assert(be32(cell, 0) == be32(page, off));
    }
    if kind == 5 {
        child_pages_of_one(links);
    } else {
        let from: nat = if kind == 2 {
            4
        } else {
            0
        };
        match varint(cell.skip(from as int)) {
            None => {},
            Some((len, n)) => {
                payload_has_no_child(cell, from + n, len, (usable - 12) * 64 / 255 - 23, usable);
                if kind == 13 {
                    assert(cell.skip(0) =~= cell);
                    if let Some((_, m)) = varint(cell.skip(n as int)) {
                        payload_has_no_child(cell, n + m, len, usable - 35, usable);
                    }
                }
            },
        }
        if kind == 2 {
            let tail = links.skip(1);
            assert(links =~= seq![Link::Child(be32(cell, 0))] + tail);
            one_child(Link::Child(be32(cell, 0)), tail);
            assert(varint(cell.skip(4)) is Some) by {
                if varint(cell.skip(4)) is None {
                    assert(links[1] is Fault);
                }
            }
            let (len, n) = varint(cell.skip(4)).unwrap();
            assert(tail =~= payload_links(
                cell,
                4 + n,
                len,
                (usable - 12) * 64 / 255 - 23,
                usable,
            ));
            assert(child_pages(links) =~= seq![be32(page, off)]);
        } else {
            assert(cell.skip(0) =~= cell);
            assert(child_pages(links) =~= Seq::empty());
        }
    }
}

proof fn cells_children(p: u32, page: Seq<u8>, i: nat, count: nat, usable: int)
    requires
        header_at(p) + 5 <= page.len(),
        is_interior_page(p, page) || is_leaf_page(p, page),
        faultless(cells_links(p, page, i, count, usable)),
        i <= count,
    ensures
        is_interior_page(p, page) ==> child_pages(cells_links(p, page, i, count, usable))
            == Seq::new(
            (count - i) as nat,
            |k: int| be32(page, cell_at(p, page, 12, i + k)),
        ),
        is_leaf_page(p, page) ==> child_pages(cells_links(p, page, i, count, usable)) == Seq::<
            u32,
        >::empty(),
    decreases count - i,
{
    if i < count {
        let first = cell_links(p, page, i, usable);
        let rest = cells_links(p, page, i + 1, count, usable);
        faultless_concat(first, rest);
        cell_children(p, page, i, usable);
        cells_children(p, page, i + 1, count, usable);
        child_pages_concat(first, rest);
    }
    if is_interior_page(p, page) {
        assert(child_pages(cells_links(p, page, i, count, usable)) =~= Seq::new(
            (count - i) as nat,
            |k: int| be32(page, cell_at(p, page, 12, i + k)),
        ));
    } else {
        assert(child_pages(cells_links(p, page, i, count, usable)) =~= Seq::empty());
    }
}

/// An interior page, of an index or of a table, that is in order has one child more than it
/// has cells: the page that its header names as the rightmost, and for each cell the page
/// whose number the cell starts with.
pub proof fn interior_page_has_every_child(p: u32, page: Seq<u8>, usable: int)
    requires
        header_at(p) + 5 <= page.len(),
        is_interior_page(p, page),
        faultless(page_links(p, page, usable)),
    ensures
        child_pages(page_links(p, page, usable)) == seq![be32(page, header_at(p) + 8)]
            + Seq::new(
            cell_count(p, page),
            |k: int| be32(page, cell_at(p, page, 12, k)),
        ),
        child_pages(page_links(p, page, usable)).len() == cell_count(p, page) + 1,
{
    let links = page_links(p, page, usable);
    if page.len() < header_at(p) + 12 {
        assert(links[0] is Fault);
    }
    let right = Link::Child(be32(page, header_at(p) + 8));
    let rest = cells_links(p, page, 0, cell_count(p, page), usable);
    assert(links == seq![right] + rest);
    faultless_concat(seq![right], rest);
    one_child(right, rest);
    cells_children(p, page, 0, cell_count(p, page), usable);
    assert(Seq::new(cell_count(p, page), |k: int| be32(page, cell_at(p, page, 12, 0 + k)))
        =~= Seq::new(cell_count(p, page), |k: int| be32(page, cell_at(p, page, 12, k))));
}

/// A leaf that is in order has no children.
pub proof fn leaf_page_has_no_child(p: u32, page: Seq<u8>, usable: int)
    requires
        header_at(p) + 5 <= page.len(),
        is_leaf_page(p, page),
        faultless(page_links(p, page, usable)),
    ensures
        child_pages(page_links(p, page, usable)) == Seq::<u32>::empty(),
{
    cells_children(p, page, 0, cell_count(p, page), usable);
}

/// A child is among the child pages exactly where it is among the links.
pub proof fn child_pages_are_the_children(links: Seq<Link>, q: u32)
    ensures
        child_pages(links).contains(q) <==> links.contains(Link::Child(q)),
    decreases links.len(),
{
    if links.len() > 0 {
        let rest = links.drop_last();
        child_pages_are_the_children(rest, q);
        let before = child_pages(rest);
        let all = child_pages(links);
        if rest.contains(Link::Child(q)) {
            let i = choose|i: int| 0 <= i < rest.len() && rest[i] == Link::Child(q);
            assert(links[i] == Link::Child(q));
        }
        if links.contains(Link::Child(q)) && links.last() != Link::Child(q) {
            let i = choose|i: int| 0 <= i < links.len() && links[i] == Link::Child(q);
            assert(rest[i] == Link::Child(q));
        }
        if before.contains(q) {
            let i = choose|i: int| 0 <= i < before.len() && before[i] == q;
            assert(all[i] == q);
        }
        if links.last() == Link::Child(q) {
            assert(all[all.len() - 1] == q);
            assert(links[links.len() - 1] == Link::Child(q));
        }
        if all.contains(q) && !before.contains(q) {
            let i = choose|i: int| 0 <= i < all.len() && all[i] == q;
            if i < before.len() {
                assert(before[i] == q);
            }
        }
    }
}

/// A page that is no b-tree page is not taken for one.
pub proof fn other_pages_are_refused(p: u32, page: Seq<u8>, usable: int)
    requires
        faultless(page_links(p, page, usable)),
    ensures
        header_at(p) + 5 <= page.len(),
        is_interior_page(p, page) || is_leaf_page(p, page),
{
    let links = page_links(p, page, usable);
    if page.len() < header_at(p) + 5 || !(is_interior_page(p, page) || is_leaf_page(p, page)) {
        assert(links[0] is Fault);
    }
}

/// Where a walk takes in an interior page, of an index or of a table, it takes in every child
/// of it: the rightmost, and that of each cell.
pub proof fn walked_page_brings_its_children(src: Pages, root: u32, r: BtreePagesView, p: u32)
    requires
        walk(src, root) == Ok::<BtreePagesView, ErrorView>(r),
        r.btree.contains(p),
    ensures
        (src.read)(p) matches Ok(page) && header_at(p) + 5 <= page.len() && {
            ||| is_leaf_page(p, page)
            ||| is_interior_page(p, page) && r.btree.contains(be32(page, header_at(p) + 8))
                && forall|k: int|
                0 <= k < cell_count(p, page) ==> r.btree.contains(
                    #[trigger] be32(page, cell_at(p, page, 12, k)),
                )
        },
{
    walk_is_exact(src, root, r);
    assert(sound(src, p));
    let page = (src.read)(p)->Ok_0;
    let links = page_links(p, page, src.header.usable());
    assert(faultless(links)) by {
        assert forall|i: int| 0 <= i < links.len() implies !((#[trigger] links[i]) is Fault) by {
            if let Link::Fault(e) = links[i] {
                assert(links.contains(Link::Fault(e)));
                assert(refers(src, p, Link::Fault(e)));
            }
        }
    }
    other_pages_are_refused(p, page, src.header.usable());
    if is_interior_page(p, page) {
        interior_page_has_every_child(p, page, src.header.usable());
        let children = child_pages(links);
        assert forall|j: int| 0 <= j < children.len() implies r.btree.contains(
            #[trigger] children[j],
        ) by {
            let q = children[j];
            assert(children.contains(q));
            child_pages_are_the_children(links, q);
            assert(refers(src, p, Link::Child(q)));
            assert(reachable(src, root, p));
            let k = choose|k: nat| leads(src, root, p, k);
            assert(leads(src, root, q, k + 1));
            assert(reachable(src, root, q));
        }
        assert(children[0] == be32(page, header_at(p) + 8));
        assert forall|k: int| 0 <= k < cell_count(p, page) implies r.btree.contains(
            #[trigger] be32(page, cell_at(p, page, 12, k)),
        ) by {
            assert(children[k + 1] == be32(page, cell_at(p, page, 12, k)));
        }
    }
}

/// Where a walk takes in a page other than the root, an interior page of the walk names it: as
/// its rightmost child, or at the start of a cell.
pub proof fn walked_page_is_named(src: Pages, root: u32, r: BtreePagesView, q: u32)
    requires
        walk(src, root) == Ok::<BtreePagesView, ErrorView>(r),
        r.btree.contains(q),
        q != root,
    ensures
        exists|p: u32|
            #![trigger r.btree.contains(p)]
            r.btree.contains(p) && ((src.read)(p) matches Ok(page) && is_interior_page(p, page) && (
            q == be32(page, header_at(p) + 8) || exists|k: int|
                0 <= k < cell_count(p, page) && q == #[trigger] be32(
                    page,
                    cell_at(p, page, 12, k),
                ))),
{
    walk_is_exact(src, root, r);
    assert(reachable(src, root, q));
    let n = choose|n: nat| leads(src, root, q, n);
    let p = choose|p: u32|
        leads(src, root, p, (n - 1) as nat) && #[trigger] refers(src, p, Link::Child(q));
    assert(reachable(src, root, p));
    assert(r.btree.contains(p));
    walked_page_brings_its_children(src, root, r, p);
    let page = (src.read)(p)->Ok_0;
    let links = page_links(p, page, src.header.usable());
    assert(sound(src, p));
    assert(faultless(links)) by {
        assert forall|i: int| 0 <= i < links.len() implies !((#[trigger] links[i]) is Fault) by {
            if let Link::Fault(e) = links[i] {
                assert(links.contains(Link::Fault(e)));
                assert(refers(src, p, Link::Fault(e)));
            }
        }
    }
    child_pages_are_the_children(links, q);
    if is_leaf_page(p, page) {
        leaf_page_has_no_child(p, page, src.header.usable());
    } else {
        interior_page_has_every_child(p, page, src.header.usable());
        let children = child_pages(links);
        let j = choose|j: int| 0 <= j < children.len() && children[j] == q;
        if j > 0 {
            assert(be32(page, cell_at(p, page, 12, j - 1)) == q);
        }
    }
}

// ---------------------------------------------------------------------------------------
// Payloads that spill
// ---------------------------------------------------------------------------------------
/// How much of a payload stays in its cell, of which at most `limit` bytes may: all of it if it
/// may; otherwise as much, between the least amount and `limit`, as makes the rest fill
/// overflow pages to the last byte; and the least amount where nothing between does.
pub proof fn what_stays_in_a_cell(usable: int, len: int, limit: int)
    requires
        480 <= usable <= 65536,
        0 <= len,
        (usable - 12) * 32 / 255 - 23 <= limit <= usable - 35,
    ensures
        ({
            let least = (usable - 12) * 32 / 255 - 23;
            let stays = local_len(usable, len, limit);
            &&& len <= limit ==> stays == len
            &&& len > limit ==> least <= stays <= limit
            &&& len > limit && stays != least ==> (len - stays) % (usable - 4) == 0
            &&& len > limit && stays == least ==> forall|v: int|
                least < v <= limit ==> #[trigger] ((len - v) % (usable - 4)) != 0
        }),
{
    let least = (usable - 12) * 32 / 255 - 23;
    let c = usable - 4;
    let d = len - least;
    let k = least + d % c;
    if len > limit {
        assert(0 <= d % c < c);
        let q = d / c;
        assert(d == c * q + d % c) by (nonlinear_arith)
            requires
                q == d / c,
                c > 0,
        ;
        assert(len - k == c * q);
        assert((c * q) % c == 0) by (nonlinear_arith)
            requires
                c > 0,
        ;
        if local_len(usable, len, limit) == least {
            assert forall|v: int| least < v <= limit implies #[trigger] ((len - v) % c) != 0 by {
                if (len - v) % c == 0 {
                    let t = (len - v) / c;
                    assert(len - v == c * t) by (nonlinear_arith)
                        requires
                            t == (len - v) / c,
                            (len - v) % c == 0,
                            c > 0,
                    ;
                    assert(v - k == c * (q - t)) by (nonlinear_arith)
                        requires
                            len - v == c * t,
                            len - k == c * q,
                    ;
                    assert(q == t) by (nonlinear_arith)
                        requires
                            v - k == c * (q - t),
                            -c < v - k < c,
                            c > 0,
                    ;
                }
            }
        }
    }
}

/// The most bytes of a payload that stay in a cell: as many as a table leaf has room for, but in
/// an index no more than leave room for four cells on a page.
pub open spec fn most_that_stay(kind: u8, usable: int) -> int {
    if kind == 13 {
        usable - 35
    } else {
        (usable - 12) * 64 / 255 - 23
    }
}

/// Where the payload of a cell starts, and how long it is. The child comes first, on an
/// interior page; then the length of the payload; then the row id, on a table leaf.
pub open spec fn payload_at(kind: u8, cell: Seq<u8>) -> Option<(nat, nat)> {
    let from: nat = if kind == 2 {
        4
    } else {
        0
    };
    match varint(cell.skip(from as int)) {
        None => None,
        Some((len, n)) => if kind != 13 {
            Some((from + n, len))
        } else {
            match varint(cell.skip((from + n) as int)) {
                None => None,
                Some((_, m)) => Some((from + n + m, len)),
            }
        },
    }
}

/// A cell with a payload refers to an overflow chain exactly where its payload is longer than
/// what may stay; the chain starts at the page whose number follows what stays, and carries
/// what does not.
pub proof fn cell_spills_its_payload(p: u32, kind: u8, cell: Seq<u8>, usable: int)
    requires
        kind == 2 || kind == 10 || kind == 13,
        480 <= usable <= 65536,
        faultless(links_in_cell(p, kind, cell, usable)),
    ensures
        payload_at(kind, cell) matches Some((start, len)) && {
            let links = links_in_cell(p, kind, cell, usable);
            let stays = local_len(usable, len as int, most_that_stay(kind, usable));
            &&& forall|first: u32, rest: nat| #[trigger]
                links.contains(Link::Chain { first, rest }) <==> len > most_that_stay(kind, usable)
                    && first == be32(cell, start + stays) && rest == len - stays
            &&& len > most_that_stay(kind, usable) ==> start + stays + 4 <= cell.len()
        },
{
    let links = links_in_cell(p, kind, cell, usable);
    assert(cell.skip(0) =~= cell);
    let from: nat = if kind == 2 {
        4
    } else {
        0
    };
    if links.len() > 0 && links[0] is Fault {
        assert(!faultless(links));
    }
    if links.len() > 1 && links[1] is Fault {
        assert(!faultless(links));
    }
    let (start, len) = payload_at(kind, cell).unwrap();
    let most = most_that_stay(kind, usable);
    let stays = local_len(usable, len as int, most);
    what_stays_in_a_cell(usable, len as int, most);
    let spilled = payload_links(cell, start, len, most, usable);
    if kind == 2 {
        assert(links =~= seq![Link::Child(be32(cell, 0))] + spilled);
        if spilled.len() > 0 {
            assert(links[1] == spilled[0]);
        }
    } else {
        assert(links =~= spilled);
        if spilled.len() > 0 {
            assert(links[0] == spilled[0]);
        }
    }
    assert forall|first: u32, rest: nat| #[trigger]
        links.contains(Link::Chain { first, rest }) <==> len > most && first == be32(
        cell,
        start + stays,
    ) && rest == len - stays by {
        let c = Link::Chain { first, rest };
        if links.contains(c) {
            let i = choose|i: int| 0 <= i < links.len() && links[i] == c;
            assert(c == spilled[0]);
        }
    }
}

proof fn contains_in_sum(a: Seq<Link>, b: Seq<Link>, l: Link)
    ensures
        (a + b).contains(l) <==> a.contains(l) || b.contains(l),
{
    if a.contains(l) {
        let i = choose|i: int| 0 <= i < a.len() && a[i] == l;
        assert((a + b)[i] == l);
    }
    if b.contains(l) {
        let i = choose|i: int| 0 <= i < b.len() && b[i] == l;
        assert((a + b)[a.len() + i] == l);
    }
    if (a + b).contains(l) {
        let i = choose|i: int| 0 <= i < (a + b).len() && (a + b)[i] == l;
        if i < a.len() {
            assert(a[i] == l);
        } else {
            assert(b[i - a.len()] == l);
        }
    }
}

proof fn links_come_from_cells(p: u32, page: Seq<u8>, i: nat, count: nat, usable: int, l: Link)
    ensures
        cells_links(p, page, i, count, usable).contains(l) <==> exists|k: nat|
            i <= k < count && #[trigger] cell_links(p, page, k, usable).contains(l),
    decreases count - i,
{
    if i < count {
        let first = cell_links(p, page, i, usable);
        let rest = cells_links(p, page, i + 1, count, usable);
        contains_in_sum(first, rest, l);
        links_come_from_cells(p, page, i + 1, count, usable, l);
        if rest.contains(l) {
            let k = choose|k: nat|
                i + 1 <= k < count && #[trigger] cell_links(p, page, k, usable).contains(l);
            assert(i <= k < count);
        }
        if exists|k: nat| i <= k < count && #[trigger] cell_links(p, page, k, usable).contains(l) {
            let k = choose|k: nat|
                i <= k < count && #[trigger] cell_links(p, page, k, usable).contains(l);
            if k != i {
                assert(i + 1 <= k);
            }
        }
    }
}

proof fn cells_are_faultless(p: u32, page: Seq<u8>, i: nat, count: nat, usable: int, k: nat)
    requires
        faultless(cells_links(p, page, i, count, usable)),
        i <= k < count,
    ensures
        faultless(cell_links(p, page, k, usable)),
    decreases count - i,
{
    faultless_concat(
        cell_links(p, page, i, usable),
        cells_links(p, page, i + 1, count, usable),
    );
    if k > i {
        cells_are_faultless(p, page, i + 1, count, usable, k);
    }
}

/// The length of the b-tree header of `page`.
pub open spec fn header_len_of(p: u32, page: Seq<u8>) -> int {
    if is_interior_page(p, page) {
        12
    } else {
        8
    }
}

/// The overflow chains of a page that is in order are those of its cells, of every one of them
/// that spills; the cells of an interior table page carry no payload.
pub proof fn page_spills_by_cell(p: u32, page: Seq<u8>, usable: int, first: u32, rest: nat)
    requires
        480 <= usable <= 65536,
        faultless(page_links(p, page, usable)),
    ensures
        ({
            let kind = page[header_at(p)];
            page_links(p, page, usable).contains(Link::Chain { first, rest }) <==> kind != 5
                && exists|k: nat|
                k < cell_count(p, page) && {
                    let cell = page.skip(
                        #[trigger] cell_at(p, page, header_len_of(p, page), k as int),
                    );
                    payload_at(kind, cell) matches Some((start, len)) && {
                        let stays = local_len(usable, len as int, most_that_stay(kind, usable));
                        len > most_that_stay(kind, usable) && first == be32(cell, start + stays)
                            && rest == len - stays
                    }
                }
        }),
{
    let kind = page[header_at(p)];
    let hl = header_len_of(p, page);
    let n = cell_count(p, page);
    let l = Link::Chain { first, rest };
    other_pages_are_refused(p, page, usable);
    let links = page_links(p, page, usable);
    if links.len() > 0 && links[0] is Fault {
        assert(!faultless(links));
    }
    let cells = cells_links(p, page, 0, n, usable);
    if is_interior_page(p, page) {
        let right = seq![Link::Child(be32(page, header_at(p) + 8))];
        assert(links == right + cells);
        contains_in_sum(right, cells, l);
        faultless_concat(right, cells);
    } else {
        assert(links == cells);
    }
    links_come_from_cells(p, page, 0, n, usable, l);
    assert forall|k: nat| k < n implies (#[trigger] cell_links(p, page, k, usable)).contains(l) == (
    kind != 5 && {
        let cell = page.skip(cell_at(p, page, hl, k as int));
        payload_at(kind, cell) matches Some((start, len)) && {
            let stays = local_len(usable, len as int, most_that_stay(kind, usable));
            len > most_that_stay(kind, usable) && first == be32(cell, start + stays) && rest == len
                - stays
        }
    }) by {
        cells_are_faultless(p, page, 0, n, usable, k);
        let ls = cell_links(p, page, k, usable);
        if ls.len() > 0 && ls[0] is Fault {
            assert(!faultless(ls));
        }
        let cell = page.skip(cell_at(p, page, hl, k as int));
        assert(ls == links_in_cell(p, kind, cell, usable));
        if kind != 5 {
            cell_spills_its_payload(p, kind, cell, usable);
        }
    }
    if cells.contains(l) {
        let k = choose|k: nat| 0 <= k < n && #[trigger] cell_links(p, page, k, usable).contains(l);
        let at = cell_at(p, page, hl, k as int);
    }
    if kind != 5 && exists|k: nat|
        k < n && {
            let cell = page.skip(#[trigger] cell_at(p, page, hl, k as int));
            payload_at(kind, cell) matches Some((start, len)) && {
                let stays = local_len(usable, len as int, most_that_stay(kind, usable));
                len > most_that_stay(kind, usable) && first == be32(cell, start + stays) && rest
                    == len - stays
            }
        } {
        let k = choose|k: nat|
            k < n && {
                let cell = page.skip(#[trigger] cell_at(p, page, hl, k as int));
                payload_at(kind, cell) matches Some((start, len)) && {
                    let stays = local_len(usable, len as int, most_that_stay(kind, usable));
                    len > most_that_stay(kind, usable) && first == be32(cell, start + stays)
                        && rest == len - stays
                }
            };
        assert(cell_links(p, page, k, usable).contains(l));
    }
}

/// The cell at `off` of `page` lies within it, as far as a walk looks at it.
pub open spec fn cell_fits(kind: u8, page: Seq<u8>, off: int, usable: int) -> bool {
    let cell = page.skip(off);
    &&& off < page.len()
    &&& kind == 2 || kind == 5 ==> off + 4 <= page.len()
    &&& kind != 5 ==> (payload_at(kind, cell) matches Some((start, len)) && (len > most_that_stay(
        kind,
        usable,
    ) ==> off + start + local_len(usable, len as int, most_that_stay(kind, usable)) + 4
        <= page.len()))
}

/// The pointer to cell `k` of `page` lies within the page, and so does the cell.
pub open spec fn cell_in_order(p: u32, page: Seq<u8>, k: nat, usable: int) -> bool {
    &&& header_at(p) + header_len_of(p, page) + 2 * k + 2 <= page.len()
    &&& cell_fits(
        page[header_at(p)],
        page,
        cell_at(p, page, header_len_of(p, page), k as int),
        usable,
    )
}

/// A page is in order exactly where it has the type of a b-tree page, its header and its cell
/// pointers lie within it, and so does each of its cells.
pub proof fn page_is_in_order_iff_it_fits(p: u32, page: Seq<u8>, usable: int)
    requires
        480 <= usable <= 65536,
    ensures
        faultless(page_links(p, page, usable)) <==> {
            &&& header_at(p) + 5 <= page.len()
            &&& is_interior_page(p, page) || is_leaf_page(p, page)
            &&& is_interior_page(p, page) ==> header_at(p) + 12 <= page.len()
            &&& forall|k: nat|
                k < cell_count(p, page) ==> #[trigger] cell_in_order(p, page, k, usable)
        },
{
    let n = cell_count(p, page);
    let links = page_links(p, page, usable);
    let cells = cells_links(p, page, 0, n, usable);
    if header_at(p) + 5 > page.len() || !(is_interior_page(p, page) || is_leaf_page(p, page)) || (
    is_interior_page(p, page) && header_at(p) + 12 > page.len()) {
        assert(links[0] is Fault);
        assert(!faultless(links));
    } else {
        if is_interior_page(p, page) {
            let right = seq![Link::Child(be32(page, header_at(p) + 8))];
            assert(links == right + cells);
            faultless_concat(right, cells);
        } else {
            assert(links == cells);
        }
        cells_faultless_iff(p, page, 0, n, usable);
        if faultless(cells) {
            assert forall|k: nat| k < n implies #[trigger] cell_in_order(p, page, k, usable) by {
                cell_is_in_order_iff_it_fits(p, page, k, usable);
                assert(faultless(cell_links(p, page, k, usable)));
            }
        }
        if forall|k: nat| k < n ==> #[trigger] cell_in_order(p, page, k, usable) {
            assert forall|k: nat| 0 <= k < n implies faultless(
                #[trigger] cell_links(p, page, k, usable),
            ) by {
                assert(cell_in_order(p, page, k, usable));
                cell_is_in_order_iff_it_fits(p, page, k, usable);
            }
        }
    }
}

proof fn cells_faultless_iff(p: u32, page: Seq<u8>, i: nat, count: nat, usable: int)
    ensures
        faultless(cells_links(p, page, i, count, usable)) <==> forall|k: nat|
            i <= k < count ==> faultless(#[trigger] cell_links(p, page, k, usable)),
    decreases count - i,
{
    if i < count {
        cells_faultless_iff(p, page, i + 1, count, usable);
        faultless_concat(
            cell_links(p, page, i, usable),
            cells_links(p, page, i + 1, count, usable),
        );
    }
}

proof fn cell_is_in_order_iff_it_fits(p: u32, page: Seq<u8>, k: nat, usable: int)
    requires
        480 <= usable <= 65536,
        header_at(p) + 5 <= page.len(),
        is_interior_page(p, page) || is_leaf_page(p, page),
    ensures
        faultless(cell_links(p, page, k, usable)) <==> cell_in_order(p, page, k, usable),
{
    let kind = page[header_at(p)];
    let hl = header_len_of(p, page);
    let ls = cell_links(p, page, k, usable);
    if ls.len() > 0 && ls[0] is Fault {
        assert(!faultless(ls));
    }
    if ls.len() > 1 && ls[1] is Fault {
        assert(!faultless(ls));
    }
    if header_at(p) + hl + 2 * k + 2 <= page.len() {
        let off = cell_at(p, page, hl, k as int);
        let cell = page.skip(off);
        if off < page.len() {
            assert(ls == links_in_cell(p, kind, cell, usable));
            assert(cell.skip(0) =~= cell);
            if kind != 5 && (kind != 2 || cell.len() >= 4) {
                if let Some((start, len)) = payload_at(kind, cell) {
                    let most = most_that_stay(kind, usable);
                    what_stays_in_a_cell(usable, len as int, most);
                    let spilled = payload_links(cell, start, len, most, usable);
                    if kind == 2 {
                        assert(ls =~= seq![Link::Child(be32(cell, 0))] + spilled);
                        if spilled.len() > 0 {
                            assert(ls[1] == spilled[0]);
                        }
                    } else {
                        assert(ls =~= spilled);
                    }
                }
            }
        }
    }
}

// ---------------------------------------------------------------------------------------
// Chains
// ---------------------------------------------------------------------------------------
/// `pages` is linked: each of them can be read and starts with the number of the next.
pub open spec fn linked(src: Pages, pages: Seq<u32>) -> bool {
    forall|k: int|
        0 <= k < pages.len() - 1 ==> (#[trigger] (src.read)(pages[k]) matches Ok(page)
            && page.len() >= 4 && be32(page, 0) == pages[k + 1])
}

/// An overflow chain that is followed to its end has as many pages as its payload fills, each
/// page carrying all but four of its usable bytes; it starts at the first page, and each page
/// names the next.
pub proof fn chain_has_the_pages_it_needs(src: Pages, first: u32, rest: nat, t: Trail)
    requires
        480 <= src.header.usable(),
        rest > 0,
    ensures
        chain(src, first, rest, t) matches Ok(u) ==> {
            let added = u.pages.skip(t.pages.len() as int);
            let room = src.header.usable() - 4;
            &&& u.pages.take(t.pages.len() as int) == t.pages
            &&& t.pages.len() < u.pages.len()
            &&& added[0] == first
            &&& linked(src, added)
            &&& (added.len() - 1) * room < rest <= added.len() * room
        },
    decreases unseen(t.seen),
{
    if chain(src, first, rest, t) is Ok {
        let u = chain(src, first, rest, t)->Ok_0;
        let room = src.header.usable() - 4;
        let page = (src.read)(first)->Ok_0;
        let met = Trail { seen: t.seen.update(first - 1, true), pages: t.pages.push(first) };
        unseen_update(t.seen, first - 1);
        let added = u.pages.skip(t.pages.len() as int);
        if rest <= room {
            assert(u == met);
            assert(added =~= seq![first]);
            assert(u.pages.take(t.pages.len() as int) =~= t.pages);
            assert((added.len() - 1) * room == 0) by (nonlinear_arith)
                requires
                    added.len() == 1,
            ;
            assert(added.len() * room == room) by (nonlinear_arith)
                requires
                    added.len() == 1,
            ;
        } else {
            let next = be32(page, 0);
            let left = (rest - room) as nat;
            chain_has_the_pages_it_needs(src, next, left, met);
            let more = u.pages.skip(met.pages.len() as int);
            assert(u.pages.take(t.pages.len() as int) =~= u.pages.take(
                met.pages.len() as int,
            ).take(t.pages.len() as int));
            assert(met.pages.take(t.pages.len() as int) =~= t.pages);
            assert(u.pages[t.pages.len() as int] == met.pages[t.pages.len() as int]) by {
                assert(u.pages.take(met.pages.len() as int)[t.pages.len() as int]
                    == met.pages[t.pages.len() as int]);
            }
            assert(added =~= seq![first] + more);
            assert forall|k: int| 0 <= k < added.len() - 1 implies (#[trigger] (src.read)(added[k])
                matches Ok(pg) && pg.len() >= 4 && be32(pg, 0) == added[k + 1]) by {
                if k > 0 {
                    assert(added[k] == more[k - 1]);
                    assert((src.read)(more[k - 1]) is Ok);
                    assert(added[k + 1] == more[k]);
                }
            }
            assert((added.len() - 1) * room == (more.len() - 1) * room + room && added.len() * room
                == more.len() * room + room) by (nonlinear_arith)
                requires
                    added.len() == more.len() + 1,
            ;
        }
    }
}

} // verus!
