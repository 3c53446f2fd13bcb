//! Whose page is whose, said of the header, the freelist, the schema and the trees.

use vstd::prelude::*;

use crate::btree::PageKind;
use crate::btree::owners::base_claims;
use crate::btree::owners::claims_from;
use crate::btree::owners::freelist;
use crate::btree::owners::freelist_from;
use crate::btree::owners::freelist_leaves;
use crate::btree::owners::lock_byte;
use crate::btree::owners::object_claims;
use crate::btree::owners::owner_in;
use crate::btree::owners::owners;
use crate::btree::owners::ptrmap;
use crate::btree::owners::Claim;
use crate::btree::owners::PageOwnerView;
use crate::btree::page_laws::linked;
use crate::btree::schema::schema;
use crate::btree::schema::SchemaObjectView;
use crate::btree::walk::walk;
use crate::btree::walk::BtreePagesView;
use crate::bytes::be32;
use crate::dbfile::DbHeader;
use crate::dbfile::Pages;
use crate::error::ErrorView;
use crate::order::ascending_facts;

verus! {

// ---------------------------------------------------------------------------------------
// Pointer maps and the lock byte
// ---------------------------------------------------------------------------------------
/// An auto-vacuumed database has a pointer map on page 2 and on every page that is a multiple of
/// the maps' reach further on: a map reaches as many pages as five bytes each fit in it, and
/// takes one itself. Other databases have none.
pub proof fn pointer_maps_come_at_fixed_distances(h: DbHeader, p: u32)
    requires
        h.wf(),
    ensures
        ptrmap(h).contains(p) <==> h.largest_root_btree != 0 && 2 <= p <= h.page_count && (p - 2)
            % (h.usable() / 5 + 1) == 0,
{
    let step = h.usable() / 5 + 1;
    if h.largest_root_btree != 0 && h.page_count >= 2 {
        let maps = ptrmap(h);
        let n = maps.len() as int;
        let q = (h.page_count - 2) / step;
        assert(q * step <= h.page_count - 2 < q * step + step) by (nonlinear_arith)
            requires
                q == (h.page_count - 2) / step,
                step >= 1,
        ;
        if maps.contains(p) {
            let i = choose|i: int| 0 <= i < maps.len() && maps[i] == p;
            assert(0 <= i * step <= q * step) by (nonlinear_arith)
                requires
                    0 <= i <= q,
                    step >= 1,
            ;
            assert(p == 2 + i * step);
            assert((i * step) % step == 0) by (nonlinear_arith)
                requires
                    step >= 1,
            ;
        }
        if 2 <= p <= h.page_count && (p - 2) % step == 0 {
            let i = (p - 2) / step;
            assert(i * step == p - 2) by (nonlinear_arith)
                requires
                    i == (p - 2) / step,
                    (p - 2) % step == 0,
                    step >= 1,
            ;
            assert(0 <= i <= q) by (nonlinear_arith)
                requires
                    i * step == p - 2,
                    p - 2 >= 0,
                    p - 2 < q * step + step,
                    step >= 1,
            ;
            assert(maps[i] == p);
        }
    }
}

/// The lock-byte page is the page that the byte at 1 GiB lies on.
pub proof fn lock_byte_lies_on_its_page(h: DbHeader, p: u32)
    requires
        h.wf(),
        p >= 1,
    ensures
        lock_byte(h) == Some(p) <==> p <= h.page_count && (p - 1) * h.page_size <= 0x4000_0000
            && 0x4000_0000 < p * h.page_size,
{
    let size = h.page_size as int;
    let q = 0x4000_0000int / size;
    assert(q * size <= 0x4000_0000 < q * size + size) by (nonlinear_arith)
        requires
            q == 0x4000_0000int / size,
            size >= 1,
    ;
    assert(0 <= q <= 0x4000_0000) by (nonlinear_arith)
        requires
            q == 0x4000_0000int / size,
            size >= 1,
    ;
    if p == q + 1 {
        assert((p - 1) * size == q * size && p * size == q * size + size) by (nonlinear_arith)
            requires
                p == q + 1,
        ;
    }
    if (p - 1) * size <= 0x4000_0000 && 0x4000_0000 < p * size {
        assert(p - 1 == q) by (nonlinear_arith)
            requires
                (p - 1) * size <= 0x4000_0000,
                0x4000_0000 < p * size,
                q * size <= 0x4000_0000,
                0x4000_0000 < q * size + size,
                size >= 1,
        ;
    }
}

// ---------------------------------------------------------------------------------------
// The freelist
// ---------------------------------------------------------------------------------------
/// Page `p` is one of the leaves that trunk `t` lists.
pub open spec fn lists_leaf(src: Pages, t: u32, p: u32) -> bool {
    (src.read)(t) matches Ok(page) && exists|i: nat|
        i < be32(page, 4) && p == #[trigger] be32(page, (8 + 4 * i) as int)
}

/// Page `p` is a leaf of one of `trunks`.
pub open spec fn some_lists_leaf(src: Pages, trunks: Seq<u32>, p: u32) -> bool {
    exists|k: int| 0 <= k < trunks.len() && lists_leaf(src, #[trigger] trunks[k], p)
}

proof fn leaves_are_added(
    src: Pages,
    trunk: u32,
    page: Seq<u8>,
    i: nat,
    count: nat,
    pages: Seq<u32>,
)
    requires
        i <= count,
    ensures
        freelist_leaves(src, trunk, page, i, count, pages) matches Ok(r) ==> r == pages + Seq::new(
            (count - i) as nat,
            |k: int| be32(page, 8 + 4 * (i + k)),
        ),
    decreases count - i,
{
    let leaf = be32(page, (8 + 4 * i) as int);
    let all = Seq::new((count - i) as nat, |k: int| be32(page, 8 + 4 * (i + k)));
    if i < count {
        leaves_are_added(src, trunk, page, i + 1, count, pages.push(leaf));
        let more = Seq::new((count - i - 1) as nat, |k: int| be32(page, 8 + 4 * (i + 1 + k)));
        assert(pages.push(leaf) + more =~= pages + all);
    } else {
        assert(pages + all =~= pages);
    }
}

/// `trunks` is the chain of trunks from page `first` on: it starts there, each names the next,
/// and the last names none.
pub open spec fn trunk_chain(src: Pages, first: u32, trunks: Seq<u32>) -> bool {
    if first == 0 {
        trunks.len() == 0
    } else {
        &&& trunks.len() > 0
        &&& trunks[0] == first
        &&& linked(src, trunks)
        &&& (src.read)(trunks.last()) matches Ok(page) && page.len() >= 8 && be32(page, 0) == 0
    }
}

proof fn from_trunk_on(src: Pages, trunk: u32, visits: nat, pages: Seq<u32>)
    ensures
        freelist_from(src, trunk, visits, pages) matches Ok(r) ==> exists|trunks: Seq<u32>|
            #[trigger]
            trunk_chain(src, trunk, trunks) && forall|p: u32| #[trigger]
            r.contains(p) <==> pages.contains(p) || trunks.contains(p) || some_lists_leaf(
                src,
                trunks,
                p,
            ),
    decreases src.header.page_count - visits,
{
    if freelist_from(src, trunk, visits, pages) is Ok {
        let r = freelist_from(src, trunk, visits, pages)->Ok_0;
        if trunk == 0 {
            let none = Seq::<u32>::empty();
            assert(trunk_chain(src, trunk, none));
            assert forall|p: u32| #[trigger] r.contains(p) <==> pages.contains(p) || none.contains(
                p,
            ) || some_lists_leaf(src, none, p) by {}
        } else {
            let page = (src.read)(trunk)->Ok_0;
            let count = be32(page, 4) as nat;
            let next = be32(page, 0);
            leaves_are_added(src, trunk, page, 0, count, pages.push(trunk));
            let more = freelist_leaves(src, trunk, page, 0, count, pages.push(trunk))->Ok_0;
            let leaves = Seq::new(count, |k: int| be32(page, 8 + 4 * (0 + k)));
            from_trunk_on(src, next, visits + 1, more);
            let later = choose|trunks: Seq<u32>| #[trigger]
                trunk_chain(src, next, trunks) && forall|p: u32| #[trigger]
                r.contains(p) <==> more.contains(p) || trunks.contains(p) || some_lists_leaf(
                    src,
                    trunks,
                    p,
                );
            let trunks = seq![trunk] + later;
            assert(trunk_chain(src, trunk, trunks)) by {
                assert forall|k: int| 0 <= k < trunks.len() - 1 implies (#[trigger] (src.read)(
                    trunks[k],
                ) matches Ok(pg) && pg.len() >= 4 && be32(pg, 0) == trunks[k + 1]) by {
                    if k > 0 {
                        assert(trunks[k] == later[k - 1]);
                        assert((src.read)(later[k - 1]) is Ok);
                        assert(trunks[k + 1] == later[k]);
                    }
                }
                if next != 0 {
                    assert(trunks.last() == later.last());
                } else {
                    assert(trunks.last() == trunk);
                }
            }
            assert forall|p: u32| #[trigger] r.contains(p) <==> pages.contains(p)
                || trunks.contains(p) || some_lists_leaf(src, trunks, p) by {
                assert(r.contains(p) <==> more.contains(p) || later.contains(p) || some_lists_leaf(
                    src,
                    later,
                    p,
                ));
                assert(more == pages.push(trunk) + leaves);
                if more.contains(p) {
                    let k = choose|k: int| 0 <= k < more.len() && more[k] == p;
                    if k < pages.len() {
                        assert(pages[k] == p);
                    } else if k == pages.len() {
                        assert(trunks[0] == p);
                    } else {
                        let i = (k - pages.len() - 1) as nat;
                        assert(leaves[i as int] == p);
                        assert(p == be32(page, (8 + 4 * i) as int));
                        assert(lists_leaf(src, trunks[0], p));
                    }
                }
                if later.contains(p) {
                    let k = choose|k: int| 0 <= k < later.len() && later[k] == p;
                    assert(trunks[k + 1] == p);
                }
                if some_lists_leaf(src, later, p) {
                    let k = choose|k: int|
                        0 <= k < later.len() && lists_leaf(src, #[trigger] later[k], p);
                    assert(lists_leaf(src, trunks[k + 1], p));
                }
                if pages.contains(p) {
                    let k = choose|k: int| 0 <= k < pages.len() && pages[k] == p;
                    assert(more[k] == p);
                }
                if trunks.contains(p) {
                    let k = choose|k: int| 0 <= k < trunks.len() && trunks[k] == p;
                    if k == 0 {
                        assert(more[pages.len() as int] == p);
                    } else {
                        assert(later[k - 1] == p);
                    }
                }
                if some_lists_leaf(src, trunks, p) {
                    let k = choose|k: int|
                        0 <= k < trunks.len() && lists_leaf(src, #[trigger] trunks[k], p);
                    if k == 0 {
                        let i = choose|i: nat|
                            i < be32(page, 4) && p == #[trigger] be32(page, (8 + 4 * i) as int);
                        assert(leaves[i as int] == p);
                        assert(more[pages.len() as int + 1 + i] == p);
                    } else {
                        assert(lists_leaf(src, later[k - 1], p));
                    }
                }
            }
        }
    }
}

/// The freelist is what the trunks say: the trunks that follow each other from the one that the
/// header names, and every leaf that one of them lists.
pub proof fn freelist_is_what_the_trunks_say(src: Pages, r: Seq<u32>)
    requires
        freelist(src) == Ok::<Seq<u32>, ErrorView>(r),
    ensures
        exists|trunks: Seq<u32>| #[trigger]
            trunk_chain(src, src.header.freelist_head, trunks) && forall|p: u32| #[trigger]
            r.contains(p) <==> trunks.contains(p) || some_lists_leaf(src, trunks, p),
        forall|i: int, j: int| 0 <= i <= j < r.len() ==> r[i] <= r[j],
{
    let none = Seq::<u32>::empty();
    let found = freelist_from(src, src.header.freelist_head, 0, none)->Ok_0;
    from_trunk_on(src, src.header.freelist_head, 0, none);
    ascending_facts(found);
    let trunks = choose|trunks: Seq<u32>| #[trigger]
        trunk_chain(src, src.header.freelist_head, trunks) && forall|p: u32| #[trigger]
        found.contains(p) <==> none.contains(p) || trunks.contains(p) || some_lists_leaf(
            src,
            trunks,
            p,
        );
    assert forall|p: u32| #[trigger] r.contains(p) <==> trunks.contains(p) || some_lists_leaf(
        src,
        trunks,
        p,
    ) by {
        assert(r.contains(p) <==> found.contains(p));
    }
}

/// Trunk `t` is in order: it is a page of the database, no longer than its page can hold, and so
/// is each leaf that it lists.
pub open spec fn trunk_in_order(src: Pages, t: u32) -> bool {
    t <= src.header.page_count && ((src.read)(t) matches Ok(page) && {
        &&& be32(page, 4) <= (src.header.usable() - 8) / 4
        &&& page.len() >= 8 + 4 * be32(page, 4)
        &&& forall|i: nat|
            i < be32(page, 4) ==> 1 <= #[trigger] be32(page, (8 + 4 * i) as int)
                <= src.header.page_count
    })
}

proof fn leaves_in_order(
    src: Pages,
    trunk: u32,
    page: Seq<u8>,
    i: nat,
    count: nat,
    pages: Seq<u32>,
)
    requires
        page.len() >= 8 + 4 * count,
        forall|j: nat|
            j < count ==> 1 <= #[trigger] be32(page, (8 + 4 * j) as int) <= src.header.page_count,
    ensures
        freelist_leaves(src, trunk, page, i, count, pages) is Ok,
    decreases count - i,
{
    if i < count {
        leaves_in_order(
            src,
            trunk,
            page,
            i + 1,
            count,
            pages.push(be32(page, (8 + 4 * i) as int)),
        );
    }
}

proof fn trunks_in_order(
    src: Pages,
    trunk: u32,
    visits: nat,
    pages: Seq<u32>,
    trunks: Seq<u32>,
)
    requires
        trunk_chain(src, trunk, trunks),
        forall|k: int| 0 <= k < trunks.len() ==> #[trigger] trunk_in_order(src, trunks[k]),
        forall|k: int| 0 <= k < trunks.len() ==> #[trigger] trunks[k] != 0,
        visits + trunks.len() <= src.header.page_count,
    ensures
        freelist_from(src, trunk, visits, pages) is Ok,
    decreases trunks.len(),
{
    if trunk != 0 {
        let page = (src.read)(trunk)->Ok_0;
        let count = be32(page, 4) as nat;
        let next = be32(page, 0);
        let later = trunks.skip(1);
        assert(trunk_in_order(src, trunks[0]));
        leaves_in_order(src, trunk, page, 0, count, pages.push(trunk));
        assert(trunk_chain(src, next, later)) by {
            if trunks.len() > 1 {
                assert((src.read)(trunks[0]) is Ok);
                assert(later[0] == trunks[1]);
                assert(later.last() == trunks.last());
                assert(later[0] == next && next != 0) by {
                    assert(trunks[1] != 0);
                }
                assert forall|k: int| 0 <= k < later.len() - 1 implies (#[trigger] (src.read)(
                    later[k],
                ) matches Ok(pg) && pg.len() >= 4 && be32(pg, 0) == later[k + 1]) by {
                    assert(later[k] == trunks[k + 1]);
                    assert((src.read)(trunks[k + 1]) is Ok);
                    assert(later[k + 1] == trunks[k + 2]);
                }
            } else {
                assert(trunks.last() == trunk);
            }
        }
        assert forall|k: int| 0 <= k < later.len() implies #[trigger] trunk_in_order(
            src,
            later[k],
        ) by {
            assert(trunk_in_order(src, trunks[k + 1]));
        }
        assert forall|k: int| 0 <= k < later.len() implies #[trigger] later[k] != 0 by {
            assert(trunks[k + 1] != 0);
        }
        let more = freelist_leaves(src, trunk, page, 0, count, pages.push(trunk))->Ok_0;
        trunks_in_order(src, next, visits + 1, more, later);
    }
}

/// A freelist whose trunks are in order, and no more of them than the database has pages, is read.
pub proof fn freelist_in_order_is_read(src: Pages, trunks: Seq<u32>)
    requires
        trunk_chain(src, src.header.freelist_head, trunks),
        forall|k: int|
            0 <= k < trunks.len() ==> #[trigger] trunk_in_order(src, trunks[k]) && trunks[k] != 0,
        trunks.len() <= src.header.page_count,
    ensures
        freelist(src) is Ok,
{
    assert forall|k: int| 0 <= k < trunks.len() implies #[trigger] trunks[k] != 0 by {
        assert(trunk_in_order(src, trunks[k]));
    }
    trunks_in_order(src, src.header.freelist_head, 0, Seq::empty(), trunks);
}

// ---------------------------------------------------------------------------------------
// Attribution
// ---------------------------------------------------------------------------------------
/// Page `p` is a page of the tree rooted at `root`, or of a chain that the tree spills into.
pub open spec fn tree_takes(src: Pages, root: u32, p: u32) -> Option<PageKind> {
    match walk(src, root) {
        Ok(pages) => if pages.overflow.contains(p) {
            Some(PageKind::Overflow)
        } else if pages.btree.contains(p) {
            Some(PageKind::BTree)
        } else {
            None
        },
        Err(_) => None,
    }
}

proof fn owner_of_tree(claims: Seq<Claim>, pages: BtreePagesView, name: Seq<char>, p: u32)
    ensures
        owner_in(claims + object_claims(pages, name), p) == (if pages.overflow.contains(p) {
            PageOwnerView { kind: PageKind::Overflow, owner: Some(name) }
        } else if pages.btree.contains(p) {
            PageOwnerView { kind: PageKind::BTree, owner: Some(name) }
        } else {
            owner_in(claims, p)
        }),
{
    reveal_with_fuel(owner_in, 3);
    let all = claims + object_claims(pages, name);
    let one = all.drop_last();
    assert(all.last() == object_claims(pages, name)[1]);
    assert(one.last() == object_claims(pages, name)[0]);
    assert(one.drop_last() =~= claims);
}

proof fn owner_after_objects(
    src: Pages,
    objects: Seq<SchemaObjectView>,
    i: nat,
    claims: Seq<Claim>,
    p: u32,
)
    requires
        claims_from(src, objects, i, claims) is Ok,
        i <= objects.len(),
    ensures
        ({
            let all = claims_from(src, objects, i, claims)->Ok_0;
            &&& forall|j: int|
                i <= j < objects.len() && tree_takes(
                    src,
                    (#[trigger] objects[j]).rootpage,
                    p,
                ) is Some && (forall|l: int|
                    j < l < objects.len() ==> tree_takes(
                        src,
                        (#[trigger] objects[l]).rootpage,
                        p,
                    ) is None) ==> owner_in(all, p) == (PageOwnerView {
                    kind: tree_takes(src, objects[j].rootpage, p).unwrap(),
                    owner: Some(objects[j].name),
                })
            &&& (forall|l: int|
                i <= l < objects.len() ==> tree_takes(
                    src,
                    (#[trigger] objects[l]).rootpage,
                    p,
                ) is None) ==> owner_in(all, p) == owner_in(claims, p)
            &&& forall|l: int|
                i <= l < objects.len() ==> walk(src, (#[trigger] objects[l]).rootpage) is Ok
        }),
    decreases objects.len() - i,
{
    if i < objects.len() {
        let o = objects[i as int];
        let pages = walk(src, o.rootpage)->Ok_0;
        let next = claims + object_claims(pages, o.name);
        owner_after_objects(src, objects, i + 1, next, p);
        owner_of_tree(claims, pages, o.name, p);
        let all = claims_from(src, objects, i, claims)->Ok_0;
        assert forall|j: int|
            i <= j < objects.len() && tree_takes(src, (#[trigger] objects[j]).rootpage, p) is Some
                && (forall|l: int|
                j < l < objects.len() ==> tree_takes(
                    src,
                    (#[trigger] objects[l]).rootpage,
                    p,
                ) is None) implies owner_in(all, p) == (PageOwnerView {
            kind: tree_takes(src, objects[j].rootpage, p).unwrap(),
            owner: Some(objects[j].name),
        }) by {
            if j > i {
                assert(i + 1 <= j);
            }
        }
        assert forall|l: int| i <= l < objects.len() implies walk(
            src,
            (#[trigger] objects[l]).rootpage,
        ) is Ok by {
            if l > i {
                assert(i + 1 <= l);
            }
        }
    }
}

/// A page of an object's tree, or of a chain that the tree spills into, is owned by that object
/// and is of that kind; where two objects claim a page, it is the later in the schema's order.
pub proof fn object_owns_its_tree(
    src: Pages,
    map: Map<u32, PageOwnerView>,
    objects: Seq<SchemaObjectView>,
    j: int,
    p: u32,
)
    requires
        owners(src) == Ok::<Map<u32, PageOwnerView>, ErrorView>(map),
        schema(src) == Ok::<Seq<SchemaObjectView>, ErrorView>(objects),
        0 <= j < objects.len(),
        1 <= p <= src.header.page_count,
        forall|l: int|
            j < l < objects.len() ==> tree_takes(src, (#[trigger] objects[l]).rootpage, p) is None,
    ensures
        tree_takes(src, objects[j].rootpage, p) matches Some(kind) ==> map[p] == (PageOwnerView {
            kind,
            owner: Some(objects[j].name),
        }),
        walk(src, objects[j].rootpage) is Ok,
{
    let base = base_claims(src.header, freelist(src)->Ok_0) + object_claims(
        walk(src, 1)->Ok_0,
        "sqlite_schema"@,
    );
    owner_after_objects(src, objects, 0, base, p);
}

proof fn owner_of_base(h: DbHeader, free: Seq<u32>, p: u32)
    ensures
        owner_in(base_claims(h, free), p) == (PageOwnerView {
            kind: if free.contains(p) {
                PageKind::Freelist
            } else if ptrmap(h).contains(p) {
                PageKind::PtrMap
            } else if lock_byte(h) == Some(p) {
                PageKind::LockByte
            } else {
                PageKind::Unattributed
            },
            owner: None,
        }),
{
    reveal_with_fuel(owner_in, 4);
    let base = base_claims(h, free);
    let two = base.drop_last();
    let one = two.drop_last();
    assert(base.last() == base[2] && two.last() == base[1] && one.last() == base[0]);
    assert(one.drop_last() =~= Seq::empty());
    if lock_byte(h) == Some(p) {
        assert(base[0].pages[0] == p);
    }
}

/// A page that no object claims is the schema table's if it is on the tree from page 1; else
/// free, if it is on the freelist; else a pointer map, if it is in the place of one; else the
/// lock-byte page; and nobody's otherwise.
pub proof fn pages_of_no_object(
    src: Pages,
    map: Map<u32, PageOwnerView>,
    objects: Seq<SchemaObjectView>,
    p: u32,
)
    requires
        owners(src) == Ok::<Map<u32, PageOwnerView>, ErrorView>(map),
        schema(src) == Ok::<Seq<SchemaObjectView>, ErrorView>(objects),
        1 <= p <= src.header.page_count,
        forall|l: int|
            0 <= l < objects.len() ==> tree_takes(src, (#[trigger] objects[l]).rootpage, p) is None,
    ensures
        freelist(src) matches Ok(free) && walk(src, 1) is Ok && match tree_takes(src, 1, p) {
            Some(kind) => map[p] == (PageOwnerView { kind, owner: Some("sqlite_schema"@) }),
            None => map[p] == (PageOwnerView {
                kind: if free.contains(p) {
                    PageKind::Freelist
                } else if ptrmap(src.header).contains(p) {
                    PageKind::PtrMap
                } else if lock_byte(src.header) == Some(p) {
                    PageKind::LockByte
                } else {
                    PageKind::Unattributed
                },
                owner: None,
            }),
        },
{
    let free = freelist(src)->Ok_0;
    let pages = walk(src, 1)->Ok_0;
    let base = base_claims(src.header, free);
    owner_after_objects(src, objects, 0, base + object_claims(pages, "sqlite_schema"@), p);
    owner_of_tree(base, pages, "sqlite_schema"@, p);
    owner_of_base(src.header, free, p);
}

/// Attribution goes through wherever the freelist, the schema and every tree can be read.
pub proof fn attribution_goes_through(src: Pages, objects: Seq<SchemaObjectView>)
    requires
        freelist(src) is Ok,
        walk(src, 1) is Ok,
        schema(src) == Ok::<Seq<SchemaObjectView>, ErrorView>(objects),
        forall|l: int|
            0 <= l < objects.len() ==> walk(src, (#[trigger] objects[l]).rootpage) is Ok,
    ensures
        owners(src) matches Ok(map) && forall|p: u32| #[trigger]
            map.contains_key(p) <==> 1 <= p <= src.header.page_count,
{
    claims_go_through(
        src,
        objects,
        0,
        base_claims(src.header, freelist(src)->Ok_0) + object_claims(
            walk(src, 1)->Ok_0,
            "sqlite_schema"@,
        ),
    );
}

proof fn claims_go_through(
    src: Pages,
    objects: Seq<SchemaObjectView>,
    i: nat,
    claims: Seq<Claim>,
)
    requires
        forall|l: int|
            0 <= l < objects.len() ==> walk(src, (#[trigger] objects[l]).rootpage) is Ok,
    ensures
        claims_from(src, objects, i, claims) is Ok,
    decreases objects.len() - i,
{
    if i < objects.len() {
        let o = objects[i as int];
        claims_go_through(
            src,
            objects,
            i + 1,
            claims + object_claims(walk(src, o.rootpage)->Ok_0, o.name),
        );
    }
}

} // verus!
