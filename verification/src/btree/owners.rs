//! Which object each page of a database belongs to.

use std::collections::BTreeMap;

use vstd::prelude::*;

use crate::btree::links::short_page;
use crate::btree::links::short_page_error;
use crate::btree::reach::walk_is_exact;
use crate::btree::schema::object_views;
use crate::btree::schema::read_schema;
use crate::btree::schema::schema;
use crate::btree::schema::SchemaObjectView;
use crate::btree::walk::walk;
use crate::btree::walk::walk_btree;
use crate::btree::walk::BtreePages;
use crate::btree::walk::BtreePagesView;
use crate::bytes::be32;
use crate::bytes::read_be32;
use crate::dbfile::few_reads;
use crate::dbfile::DbHeader;
use crate::dbfile::PageSource;
use crate::dbfile::Pages;
use crate::error::invalid_data;
use crate::error::Error;
use crate::error::ErrorView;
use crate::order::ascending;
use crate::order::ascending_facts;
use crate::order::sort_pages;
use crate::text::dec;
use crate::text::decimal;

verus! {

/// What role a page plays in the file.
#[derive(Debug, Clone, Copy, PartialEq, Eq, Structural)]
pub enum PageKind {
    /// Part of a b-tree, interior or leaf, of a named object.
    BTree,
    /// Part of an overflow chain of a named object.
    Overflow,
    /// A trunk or a leaf of the freelist.
    Freelist,
    /// A pointer-map page of an auto-vacuumed database.
    PtrMap,
    /// The page at the lock byte, which never stores data.
    LockByte,
    /// Reached from neither the schema, the freelist nor the header.
    Unattributed,
}

/// The name of a page kind.
pub open spec fn kind_label(kind: PageKind) -> Seq<char> {
    match kind {
        PageKind::BTree => "btree"@,
        PageKind::Overflow => "overflow"@,
        PageKind::Freelist => "freelist"@,
        PageKind::PtrMap => "ptrmap"@,
        PageKind::LockByte => "lockbyte"@,
        PageKind::Unattributed => "unattributed"@,
    }
}

impl PageKind {
    /// The name of the kind.
    pub fn label(&self) -> (s: &'static str)
        ensures
            s@ == kind_label(*self),
    {
        match self {
            PageKind::BTree => "btree",
            PageKind::Overflow => "overflow",
            PageKind::Freelist => "freelist",
            PageKind::PtrMap => "ptrmap",
            PageKind::LockByte => "lockbyte",
            PageKind::Unattributed => "unattributed",
        }
    }
}

/// Whose page it is.
#[derive(Debug, Clone, PartialEq, Eq)]
pub struct PageOwner {
    pub kind: PageKind,
    /// The name of the object, for b-tree and overflow pages; `None` for bookkeeping pages.
    pub owner: Option<String>,
}

/// The mathematical value of a [`PageOwner`].
pub struct PageOwnerView {
    pub kind: PageKind,
    pub owner: Option<Seq<char>>,
}

impl View for PageOwner {
    type V = PageOwnerView;

    open spec fn view(&self) -> PageOwnerView {
        PageOwnerView {
            kind: self.kind,
            owner: match self.owner {
                None => None,
                Some(s) => Some(s@),
            },
        }
    }
}

/// A page that belongs to no object.
pub open spec fn bookkeeping(kind: PageKind) -> PageOwnerView {
    PageOwnerView { kind, owner: None }
}

/// A page of the object `name`.
pub open spec fn owned(kind: PageKind, name: Seq<char>) -> PageOwnerView {
    PageOwnerView { kind, owner: Some(name) }
}

// ---------------------------------------------------------------------------------------
// The freelist
// ---------------------------------------------------------------------------------------
/// The freelist pages after leaf `i` and the following ones of a trunk's `count` were added
/// to `pages`.
pub open spec fn freelist_leaves(
    src: Pages,
    trunk: u32,
    page: Seq<u8>,
    i: nat,
    count: nat,
    pages: Seq<u32>,
) -> Result<Seq<u32>, ErrorView>
    decreases count - i,
{
    let leaf = be32(page, (8 + 4 * i) as int);
    if i >= count {
        Ok(pages)
    } else if page.len() < 8 + 4 * i + 4 {
        Err(short_page(trunk))
    } else if leaf == 0 || leaf > src.header.page_count {
        Err(invalid_data("freelist leaf "@ + dec(leaf as nat) + " out of range"@))
    } else {
        freelist_leaves(src, trunk, page, i + 1, count, pages.push(leaf))
    }
}

/// The freelist pages from trunk `trunk` on, added to `pages`, `visits` trunks having been
/// read. A trunk holds the number of the next one, the number of its leaves, and those.
pub open spec fn freelist_from(src: Pages, trunk: u32, visits: nat, pages: Seq<u32>) -> Result<
    Seq<u32>,
    ErrorView,
>
    decreases src.header.page_count - visits,
{
    if trunk == 0 {
        Ok(pages)
    } else if trunk > src.header.page_count || visits >= src.header.page_count {
        Err(invalid_data("freelist trunk chain invalid at page "@ + dec(trunk as nat)))
    } else {
        match (src.read)(trunk) {
            Err(e) => Err(e),
            Ok(page) => if page.len() < 8 {
                Err(short_page(trunk))
            } else if be32(page, 4) > (src.header.usable() - 8) / 4 {
                Err(
                    invalid_data(
                        "freelist trunk "@ + dec(trunk as nat) + " claims "@ + dec(
                            be32(page, 4) as nat,
                        ) + " leaves"@,
                    ),
                )
            } else {
                match freelist_leaves(
                    src,
                    trunk,
                    page,
                    0,
                    be32(page, 4) as nat,
                    pages.push(trunk),
                ) {
                    Err(e) => Err(e),
                    Ok(more) => freelist_from(src, be32(page, 0), visits + 1, more),
                }
            },
        }
    }
}

/// Every page of the freelist, trunks and leaves, in ascending order, or the first defect.
pub open spec fn freelist(src: Pages) -> Result<Seq<u32>, ErrorView> {
    match freelist_from(src, src.header.freelist_head, 0, Seq::empty()) {
        Err(e) => Err(e),
        Ok(pages) => Ok(ascending(pages)),
    }
}

/// All of `pages` are pages of a database of `page_count` pages.
pub open spec fn in_range(pages: Seq<u32>, page_count: u32) -> bool {
    forall|i: int| 0 <= i < pages.len() ==> 1 <= #[trigger] pages[i] <= page_count
}

proof fn freelist_leaves_in_range(
    src: Pages,
    trunk: u32,
    page: Seq<u8>,
    i: nat,
    count: nat,
    pages: Seq<u32>,
)
    requires
        in_range(pages, src.header.page_count),
    ensures
        freelist_leaves(src, trunk, page, i, count, pages) matches Ok(r) ==> in_range(
            r,
            src.header.page_count,
        ),
    decreases count - i,
{
    let leaf = be32(page, (8 + 4 * i) as int);
    if i < count && 1 <= leaf <= src.header.page_count {
        freelist_leaves_in_range(src, trunk, page, i + 1, count, pages.push(leaf));
    }
}

proof fn freelist_from_in_range(src: Pages, trunk: u32, visits: nat, pages: Seq<u32>)
    requires
        in_range(pages, src.header.page_count),
    ensures
        freelist_from(src, trunk, visits, pages) matches Ok(r) ==> in_range(
            r,
            src.header.page_count,
        ),
    decreases src.header.page_count - visits,
{
    if trunk != 0 && trunk <= src.header.page_count && visits < src.header.page_count {
        if let Ok(page) = (src.read)(trunk) {
            let count = be32(page, 4) as nat;
            freelist_leaves_in_range(src, trunk, page, 0, count, pages.push(trunk));
            if let Ok(more) = freelist_leaves(src, trunk, page, 0, count, pages.push(trunk)) {
                freelist_from_in_range(src, be32(page, 0), visits + 1, more);
            }
        }
    }
}

/// The freelist that is read holds only pages of the database, in ascending order.
pub proof fn freelist_is_ascending(src: Pages, r: Seq<u32>)
    requires
        freelist(src) == Ok::<Seq<u32>, ErrorView>(r),
    ensures
        in_range(r, src.header.page_count),
        forall|i: int, j: int| 0 <= i <= j < r.len() ==> r[i] <= r[j],
{
    freelist_from_in_range(src, src.header.freelist_head, 0, Seq::empty());
    let pages = freelist_from(src, src.header.freelist_head, 0, Seq::empty())->Ok_0;
    ascending_facts(pages);
    assert forall|i: int| 0 <= i < r.len() implies 1 <= #[trigger] r[i]
        <= src.header.page_count by {
        assert(r.contains(r[i]));
        assert(pages.contains(r[i]));
    }
}

/// Walks the trunk chain of the freelist and returns every page of it, trunks and leaves, in
/// ascending order. Reads at most as many pages as there are, and none where the freelist is
/// empty.
pub fn freelist_pages<S: PageSource>(src: &mut S) -> (r: Result<Vec<u32>, Error>)
    requires
        old(src).wf(),
    ensures
        final(src).wf(),
        final(src).pages() == old(src).pages(),
        few_reads(old(src).reads(), final(src).reads(), old(src).pages().header.page_count),
        old(src).pages().header.freelist_head == 0 ==> final(src).reads() == old(src).reads(),
        match r {
            Ok(pages) => freelist(old(src).pages()) == Ok::<Seq<u32>, ErrorView>(pages@),
            Err(e) => freelist(old(src).pages()) == Err::<Seq<u32>, ErrorView>(e@),
        },
{
    let ghost all = src.pages();
    let page_count: u32 = src.page_count();
    let usable: u32 = src.header().usable_size();
    let mut pages: Vec<u32> = Vec::new();
    let mut trunk: u32 = src.header().freelist_head;
    let mut visits: u32 = 0;
    assert(src.reads().take(src.reads().len() as int) =~= src.reads());
    while trunk != 0
        invariant
            src.wf(),
            src.pages() == all,
            all == old(src).pages(),
            page_count == all.header.page_count,
            usable == all.header.usable(),
            480 <= usable <= 65536,
            visits <= page_count,
            few_reads(old(src).reads(), src.reads(), page_count),
            src.reads().len() == old(src).reads().len() + visits,
            all.header.freelist_head == 0 ==> trunk == 0 && visits == 0,
            freelist_from(all, all.header.freelist_head, 0, Seq::empty()) == freelist_from(
                all,
                trunk,
                visits as nat,
                pages@,
            ),
        decreases page_count - visits,
    {
        if trunk > page_count || visits >= page_count {
            let mut m = "freelist trunk chain invalid at page ".to_string();
            m.push_str(decimal(trunk as u64).as_str());
            return Err(Error::invalid_data(m));
        }
        visits = visits + 1;
        pages.push(trunk);
        let ghost so_far = src.reads();
        let read = src.page(trunk);
        assert(src.reads().take(old(src).reads().len() as int) =~= so_far.take(
            old(src).reads().len() as int,
        ));
        let page = match read {
            Ok(p) => p,
            Err(e) => {
                return Err(e);
            },
        };
        if page.len() < 8 {
            return Err(short_page_error(trunk));
        }
        let next: u32 = read_be32(page.as_slice(), 0);
        let count: u32 = read_be32(page.as_slice(), 4);
        if count > (usable - 8) / 4 {
            let mut m = "freelist trunk ".to_string();
            m.push_str(decimal(trunk as u64).as_str());
            m.push_str(" claims ");
            m.push_str(decimal(count as u64).as_str());
            m.push_str(" leaves");
            return Err(Error::invalid_data(m));
        }
        let ghost leaves = freelist_leaves(all, trunk, page@, 0, count as nat, pages@);
        let mut i: u32 = 0;
        while i < count
            invariant
                src.wf(),
                src.pages() == all,
                all == old(src).pages(),
                page_count == all.header.page_count,
                few_reads(old(src).reads(), src.reads(), page_count),
                src.reads().len() == old(src).reads().len() + visits,
                i <= count <= 0x1_0000,
                leaves == freelist_leaves(
                    all,
                    trunk,
                    page@,
                    i as nat,
                    count as nat,
                    pages@,
                ),
                match leaves {
                    Err(e) => freelist(all) == Err::<Seq<u32>, ErrorView>(e),
                    Ok(more) => freelist_from(all, all.header.freelist_head, 0, Seq::empty())
                        == freelist_from(all, next, visits as nat, more),
                },
            decreases count - i,
        {
            let off: usize = 8 + 4 * i as usize;
            if page.len() < off + 4 {
                return Err(short_page_error(trunk));
            }
            let leaf: u32 = read_be32(page.as_slice(), off);
            if leaf == 0 || leaf > page_count {
                let mut m = "freelist leaf ".to_string();
                m.push_str(decimal(leaf as u64).as_str());
                m.push_str(" out of range");
                return Err(Error::invalid_data(m));
            }
            pages.push(leaf);
            i = i + 1;
        }
        trunk = next;
    }
    Ok(sort_pages(pages))
}

// ---------------------------------------------------------------------------------------
// Pointer-map and lock-byte pages
// ---------------------------------------------------------------------------------------
/// The distance between two pointer-map pages: one maps `usable / 5` pages.
pub open spec fn ptrmap_step(h: DbHeader) -> int {
    h.usable() / 5 + 1
}

/// The pointer-map pages of an auto-vacuumed database: page 2, and every `usable / 5 + 1`
/// pages from there on.
pub open spec fn ptrmap(h: DbHeader) -> Seq<u32> {
    if h.largest_root_btree == 0 || h.page_count < 2 {
        Seq::empty()
    } else {
        Seq::new(
            ((h.page_count - 2) / ptrmap_step(h) + 1) as nat,
            |i: int| (2 + i * ptrmap_step(h)) as u32,
        )
    }
}

proof fn ptrmap_len(count: int, step: int, i: int)
    requires
        count >= 2,
        step >= 1,
        i >= 0,
    ensures
        2 + i * step <= count <==> i < (count - 2) / step + 1,
{
    let q = (count - 2) / step;
    assert(q * step <= count - 2 < q * step + step) by (nonlinear_arith)
        requires
            q == (count - 2) / step,
            step >= 1,
    ;
    assert(i <= q ==> i * step <= q * step) by (nonlinear_arith)
        requires
            step >= 1,
    ;
    assert(i >= q + 1 ==> i * step >= q * step + step) by (nonlinear_arith)
        requires
            step >= 1,
    ;
}

/// The numbers of the pointer-map pages.
pub fn ptrmap_pages<S: PageSource>(src: &S) -> (pages: Vec<u32>)
    requires
        src.wf(),
    ensures
        pages@ == ptrmap(src.pages().header),
        in_range(pages@, src.pages().header.page_count),
{
    let mut pages: Vec<u32> = Vec::new();
    if src.header().largest_root_btree == 0 {
        return pages;
    }
    let page_count: u32 = src.page_count();
    let step: u64 = src.header().usable_size() as u64 / 5 + 1;
    let mut p: u64 = 2;
    let ghost h = src.pages().header;
    while p <= page_count as u64
        invariant
            h == src.pages().header,
            page_count == h.page_count,
            step == ptrmap_step(h),
            1 <= step <= 0x1_0000,
            p == 2 + pages@.len() * step,
            p <= 0xffff_ffff + 0x1_0000,
            pages@.len() > 0 ==> p <= page_count + step,
            forall|i: int| 0 <= i < pages@.len() ==> pages@[i] == 2 + i * step,
            in_range(pages@, page_count),
        decreases 0x1_0001_0000 - p,
    {
        pages.push(p as u32);
        proof {
            let n = pages@.len();
            assert(2 + (n - 1) * step + step == 2 + n * step) by (nonlinear_arith);
        }
        p = p + step;
    }
    proof {
        if page_count >= 2 {
            ptrmap_len(page_count as int, step as int, pages@.len() as int);
            if pages@.len() > 0 {
                let n = pages@.len() as int;
                assert(2 + (n - 1) * step <= page_count) by {
                    assert(2 + (n - 1) * step + step == 2 + n * step) by (nonlinear_arith);
                }
                ptrmap_len(page_count as int, step as int, n - 1);
            }
        } else if pages@.len() > 0 {
            assert(1 <= pages@[0] <= page_count);
            assert(0 * step == 0);
        }
        assert(pages@ =~= ptrmap(h));
    }
    pages
}

/// The page that holds the byte at 1 GiB, if the database is that large.
pub open spec fn lock_byte(h: DbHeader) -> Option<u32> {
    if 0x4000_0000int / h.page_size as int + 1 <= h.page_count {
        Some((0x4000_0000int / h.page_size as int + 1) as u32)
    } else {
        None
    }
}

/// The page that holds the lock byte at 1 GiB and never stores data, in databases that are
/// large enough to have it.
pub fn lock_byte_page<S: PageSource>(src: &S) -> (p: Option<u32>)
    requires
        src.wf(),
    ensures
        p == lock_byte(src.pages().header),
        p matches Some(n) ==> 1 <= n <= src.pages().header.page_count,
{
    let page_size: u32 = src.header().page_size;
    let pgno: u32 = 0x4000_0000 / page_size + 1;
    if pgno <= src.page_count() {
        Some(pgno)
    } else {
        None
    }
}

// ---------------------------------------------------------------------------------------
// Attribution
// ---------------------------------------------------------------------------------------
/// A claim of some pages for one owner.
pub struct Claim {
    pub pages: Seq<u32>,
    pub owner: PageOwnerView,
}

/// Who owns page `p`: the last to claim it, or nobody.
pub open spec fn owner_in(claims: Seq<Claim>, p: u32) -> PageOwnerView
    decreases claims.len(),
{
    if claims.len() == 0 {
        bookkeeping(PageKind::Unattributed)
    } else if claims.last().pages.contains(p) {
        claims.last().owner
    } else {
        owner_in(claims.drop_last(), p)
    }
}

/// The claims of an object: its b-tree pages, and its overflow pages.
pub open spec fn object_claims(pages: BtreePagesView, name: Seq<char>) -> Seq<Claim> {
    seq![
        Claim { pages: pages.btree, owner: owned(PageKind::BTree, name) },
        Claim { pages: pages.overflow, owner: owned(PageKind::Overflow, name) },
    ]
}

/// `claims`, and then those of each object from `i` on.
pub open spec fn claims_from(
    src: Pages,
    objects: Seq<SchemaObjectView>,
    i: nat,
    claims: Seq<Claim>,
) -> Result<Seq<Claim>, ErrorView>
    decreases objects.len() - i,
{
    if i >= objects.len() {
        Ok(claims)
    } else {
        match walk(src, objects[i as int].rootpage) {
            Err(e) => Err(e),
            Ok(pages) => claims_from(
                src,
                objects,
                i + 1,
                claims + object_claims(pages, objects[i as int].name),
            ),
        }
    }
}

/// The claims that rest on the header and the freelist.
pub open spec fn base_claims(h: DbHeader, free: Seq<u32>) -> Seq<Claim> {
    seq![
        Claim {
            pages: match lock_byte(h) {
                None => Seq::empty(),
                Some(p) => seq![p],
            },
            owner: bookkeeping(PageKind::LockByte),
        },
        Claim { pages: ptrmap(h), owner: bookkeeping(PageKind::PtrMap) },
        Claim { pages: free, owner: bookkeeping(PageKind::Freelist) },
    ]
}

/// Every claim on the pages of a database, or the first defect met while collecting them: the
/// lock byte, the pointer maps, the freelist, the schema table, and each object by name.
pub open spec fn all_claims(src: Pages) -> Result<Seq<Claim>, ErrorView> {
    match freelist(src) {
        Err(e) => Err(e),
        Ok(free) => match walk(src, 1) {
            Err(e) => Err(e),
            Ok(pages) => match schema(src) {
                Err(e) => Err(e),
                Ok(objects) => claims_from(
                    src,
                    objects,
                    0,
                    base_claims(src.header, free) + object_claims(pages, "sqlite_schema"@),
                ),
            },
        },
    }
}

/// The owner of every page of the database, or the first defect met.
pub open spec fn owners(src: Pages) -> Result<Map<u32, PageOwnerView>, ErrorView> {
    match all_claims(src) {
        Err(e) => Err(e),
        Ok(claims) => Ok(
            Map::new(
                |p: u32| 1 <= p <= src.header.page_count,
                |p: u32| owner_in(claims, p),
            ),
        ),
    }
}

/// The views of the owners in `map`.
pub open spec fn owner_views(map: Map<u32, PageOwner>) -> Map<u32, PageOwnerView> {
    map.map_values(|o: PageOwner| o@)
}

/// `map` says of every page of a database of `page_count` pages who owns it by `claims`.
spec fn settled(map: Map<u32, PageOwner>, page_count: u32, claims: Seq<Claim>) -> bool {
    &&& forall|p: u32| #[trigger] map.contains_key(p) <==> 1 <= p <= page_count
    &&& forall|p: u32| 1 <= p <= page_count ==> #[trigger] map[p]@ == owner_in(claims, p)
}

fn make_owner(kind: PageKind, owner: Option<&str>) -> (o: PageOwner)
    ensures
        o@ == (PageOwnerView {
            kind,
            owner: match owner {
                None => None,
                Some(s) => Some(s@),
            },
        }),
{
    match owner {
        None => PageOwner { kind, owner: None },
        Some(s) => PageOwner { kind, owner: Some(s.to_string()) },
    }
}

/// Gives each of `pages` to `owner`.
fn claim(
    map: &mut BTreeMap<u32, PageOwner>,
    pages: &Vec<u32>,
    kind: PageKind,
    owner: Option<&str>,
    Ghost(page_count): Ghost<u32>,
    Ghost(claims): Ghost<Seq<Claim>>,
)
    requires
        settled(old(map)@, page_count, claims),
        in_range(pages@, page_count),
    ensures
        settled(
            final(map)@,
            page_count,
            claims.push(
                Claim {
                    pages: pages@,
                    owner: PageOwnerView {
                        kind,
                        owner: match owner {
                            None => None,
                            Some(s) => Some(s@),
                        },
                    },
                },
            ),
        ),
{
    let ghost by = PageOwnerView {
        kind,
        owner: match owner {
            None => None,
            Some(s) => Some(s@),
        },
    };
    let mut i: usize = 0;
    while i < pages.len()
        invariant
            i <= pages@.len(),
            in_range(pages@, page_count),
            by == (PageOwnerView {
                kind,
                owner: match owner {
                    None => None,
                    Some(s) => Some(s@),
                },
            }),
            forall|p: u32| #[trigger] map@.contains_key(p) <==> 1 <= p <= page_count,
            forall|p: u32|
                1 <= p <= page_count ==> #[trigger] map@[p]@ == (if pages@.take(
                    i as int,
                ).contains(p) {
                    by
                } else {
                    owner_in(claims, p)
                }),
        decreases pages@.len() - i,
    {
        let p: u32 = pages[i];
        let ghost before = map@;
        let _ = map.insert(p, make_owner(kind, owner));
        proof {
            assert(pages@.take(i + 1) =~= pages@.take(i as int).push(p));
            assert forall|q: u32| #[trigger] pages@.take(i + 1).contains(q) <==> pages@.take(
                i as int,
            ).contains(q) || q == p by {
                let s = pages@.take(i as int);
                if s.contains(q) {
                    let k = choose|k: int| 0 <= k < s.len() && s[k] == q;
                    assert(s.push(p)[k] == q);
                }
                if q == p {
                    assert(s.push(p)[s.len() as int] == p);
                }
            }
        }
        i = i + 1;
    }
    proof {
        assert(pages@.take(pages@.len() as int) =~= pages@);
        let c = Claim { pages: pages@, owner: by };
        assert(claims.push(c).drop_last() =~= claims);
    }
}

fn claim_tree(
    map: &mut BTreeMap<u32, PageOwner>,
    pages: &BtreePages,
    name: &str,
    Ghost(page_count): Ghost<u32>,
    Ghost(claims): Ghost<Seq<Claim>>,
)
    requires
        settled(old(map)@, page_count, claims),
        in_range(pages.btree@, page_count),
        in_range(pages.overflow@, page_count),
    ensures
        settled(final(map)@, page_count, claims + object_claims(pages@, name@)),
{
    claim(map, &pages.btree, PageKind::BTree, Some(name), Ghost(page_count), Ghost(claims));
    let ghost more = claims.push(
        Claim { pages: pages.btree@, owner: owned(PageKind::BTree, name@) },
    );
    claim(map, &pages.overflow, PageKind::Overflow, Some(name), Ghost(page_count), Ghost(more));
    proof {
        let last = Claim { pages: pages.overflow@, owner: owned(PageKind::Overflow, name@) };
        assert(claims + object_claims(pages@, name@) =~= more.push(last));
    }
}

proof fn walk_in_range(src: Pages, root: u32, r: BtreePagesView)
    requires
        walk(src, root) == Ok::<BtreePagesView, ErrorView>(r),
    ensures
        in_range(r.btree, src.header.page_count),
        in_range(r.overflow, src.header.page_count),
{
    walk_is_exact(src, root, r);
    assert forall|i: int| 0 <= i < r.btree.len() implies 1 <= #[trigger] r.btree[i]
        <= src.header.page_count by {
        assert(r.btree.contains(r.btree[i]));
    }
    assert forall|i: int| 0 <= i < r.overflow.len() implies 1 <= #[trigger] r.overflow[i]
        <= src.header.page_count by {
        assert(r.overflow.contains(r.overflow[i]));
    }
}

/// The map that gives every page to nobody.
fn unowned(page_count: u32) -> (map: BTreeMap<u32, PageOwner>)
    ensures
        settled(map@, page_count, Seq::empty()),
{
    let mut map: BTreeMap<u32, PageOwner> = BTreeMap::new();
    let mut p: u32 = 0;
    while p < page_count
        invariant
            p <= page_count,
            settled(map@, p, Seq::empty()),
        decreases page_count - p,
    {
        p = p + 1;
        let _ = map.insert(p, make_owner(PageKind::Unattributed, None));
    }
    map
}

/// The owner of every page of the database: page number to owner.
pub fn attribute_pages<S: PageSource>(src: &mut S) -> (r: Result<BTreeMap<u32, PageOwner>, Error>)
    requires
        old(src).wf(),
    ensures
        final(src).wf(),
        final(src).pages() == old(src).pages(),
        match r {
            Ok(map) => owners(old(src).pages()) == Ok::<Map<u32, PageOwnerView>, ErrorView>(
                owner_views(map@),
            ),
            Err(e) => owners(old(src).pages()) == Err::<Map<u32, PageOwnerView>, ErrorView>(e@),
        },
{
    let ghost all = src.pages();
    let page_count: u32 = src.page_count();
    let mut map = unowned(page_count);
    let ghost none = Seq::<Claim>::empty();
    let mut lock: Vec<u32> = Vec::new();
    if let Some(p) = lock_byte_page(src) {
        lock.push(p);
    }
    claim(&mut map, &lock, PageKind::LockByte, None, Ghost(page_count), Ghost(none));
    let maps = ptrmap_pages(src);
    let ghost one = none.push(
        Claim { pages: lock@, owner: bookkeeping(PageKind::LockByte) },
    );
    claim(&mut map, &maps, PageKind::PtrMap, None, Ghost(page_count), Ghost(one));
    let free = match freelist_pages(src) {
        Ok(pages) => pages,
        Err(e) => {
            return Err(e);
        },
    };
    let ghost two = one.push(
        Claim { pages: maps@, owner: bookkeeping(PageKind::PtrMap) },
    );
    proof {
        freelist_is_ascending(all, free@);
    }
    claim(&mut map, &free, PageKind::Freelist, None, Ghost(page_count), Ghost(two));
    let ghost base = base_claims(all.header, free@);
    proof {
        let last = Claim { pages: free@, owner: bookkeeping(PageKind::Freelist) };
        assert(lock@ =~= base[0].pages);
        assert(two.push(last) =~= base);
    }
    let schema_pages = match walk_btree(src, 1) {
        Ok(pages) => pages,
        Err(e) => {
            return Err(e);
        },
    };
    proof {
        walk_in_range(all, 1, schema_pages@);
    }
    claim_tree(&mut map, &schema_pages, "sqlite_schema", Ghost(page_count), Ghost(base));
    let objects = match read_schema(src) {
        Ok(objects) => objects,
        Err(e) => {
            return Err(e);
        },
    };
    let ghost mut claims = base + object_claims(schema_pages@, "sqlite_schema"@);
    let mut i: usize = 0;
    while i < objects.len()
        invariant
            src.wf(),
            src.pages() == all,
            all == old(src).pages(),
            page_count == all.header.page_count,
            i <= objects@.len(),
            all_claims(all) == claims_from(all, object_views(objects@), i as nat, claims),
            settled(map@, page_count, claims),
        decreases objects@.len() - i,
    {
        assert(object_views(objects@)[i as int] == objects@[i as int]@);
        let pages = match walk_btree(src, objects[i].rootpage) {
            Ok(pages) => pages,
            Err(e) => {
                return Err(e);
            },
        };
        proof {
            walk_in_range(all, objects@[i as int].rootpage, pages@);
        }
        claim_tree(
            &mut map,
            &pages,
            objects[i].name.as_str(),
            Ghost(page_count),
            Ghost(claims),
        );
        proof {
            claims = claims + object_claims(pages@, objects@[i as int].name@);
        }
        i = i + 1;
    }
    proof {
        assert(owner_views(map@) =~= owners(all)->Ok_0);
    }
    Ok(map)
}

/// Attribution covers every page of the database and nothing else.
pub proof fn owners_cover_the_database(src: Pages, map: Map<u32, PageOwnerView>)
    requires
        owners(src) == Ok::<Map<u32, PageOwnerView>, ErrorView>(map),
    ensures
        forall|p: u32| #[trigger] map.contains_key(p) <==> 1 <= p <= src.header.page_count,
{
}

/// No claim is made for nobody.
spec fn all_kinds_named(claims: Seq<Claim>) -> bool {
    forall|i: int|
        0 <= i < claims.len() ==> (#[trigger] claims[i]).owner.kind != PageKind::Unattributed
}

proof fn claims_name_kinds(
    src: Pages,
    objects: Seq<SchemaObjectView>,
    i: nat,
    claims: Seq<Claim>,
)
    requires
        all_kinds_named(claims),
    ensures
        claims_from(src, objects, i, claims) matches Ok(all) ==> all_kinds_named(all),
    decreases objects.len() - i,
{
    if i < objects.len() {
        if let Ok(pages) = walk(src, objects[i as int].rootpage) {
            claims_name_kinds(
                src,
                objects,
                i + 1,
                claims + object_claims(pages, objects[i as int].name),
            );
        }
    }
}

proof fn unclaimed_in(claims: Seq<Claim>, p: u32)
    requires
        all_kinds_named(claims),
    ensures
        owner_in(claims, p).kind == PageKind::Unattributed <==> forall|i: int|
            0 <= i < claims.len() ==> !(#[trigger] claims[i]).pages.contains(p),
    decreases claims.len(),
{
    if claims.len() > 0 {
        let rest = claims.drop_last();
        let last = claims.len() - 1;
        assert(all_kinds_named(rest)) by {
            assert forall|i: int| 0 <= i < rest.len() implies (
            #[trigger] rest[i]).owner.kind != PageKind::Unattributed by {
                assert(claims[i] == rest[i]);
            }
        }
        unclaimed_in(rest, p);
        assert(claims[last] == claims.last());
        if forall|i: int| 0 <= i < claims.len() ==> !(#[trigger] claims[i]).pages.contains(p) {
            assert forall|i: int| 0 <= i < rest.len() implies !(
            #[trigger] rest[i]).pages.contains(p) by {
                assert(claims[i] == rest[i]);
            }
        }
        if owner_in(claims, p).kind == PageKind::Unattributed {
            assert forall|i: int| 0 <= i < claims.len() implies !(
            #[trigger] claims[i]).pages.contains(p) by {
                if i < last {
                    assert(claims[i] == rest[i]);
                }
            }
        }
    }
}

/// A page is left to nobody exactly where nothing claims it: not the header, not the
/// freelist, not the schema table, and no object of the schema.
pub proof fn unattributed_means_unclaimed(src: Pages, claims: Seq<Claim>, p: u32)
    requires
        all_claims(src) == Ok::<Seq<Claim>, ErrorView>(claims),
    ensures
        owner_in(claims, p).kind == PageKind::Unattributed <==> forall|i: int|
            0 <= i < claims.len() ==> !(#[trigger] claims[i]).pages.contains(p),
{
    let free = freelist(src)->Ok_0;
    let pages = walk(src, 1)->Ok_0;
    let objects = schema(src)->Ok_0;
    claims_name_kinds(
        src,
        objects,
        0,
        base_claims(src.header, free) + object_claims(pages, "sqlite_schema"@),
    );
    unclaimed_in(claims, p);
}

} // verus!
