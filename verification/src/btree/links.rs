//! What a b-tree page points to: child pages, and the overflow chains of its cells.

use vstd::prelude::*;
use vstd::slice::slice_subrange;

use crate::bytes::be16;
use crate::bytes::be32;
use crate::bytes::read_be16;
use crate::bytes::read_be32;
use crate::dbfile::HEADER_LEN;
use crate::error::invalid_data;
use crate::error::Error;
use crate::error::ErrorView;
use crate::record::read_varint;
use crate::record::varint;
use crate::text::dec;
use crate::text::decimal;

verus! {

/// Page type of an interior index page.
pub const INTERIOR_INDEX: u8 = 2;

/// Page type of an interior table page.
pub const INTERIOR_TABLE: u8 = 5;

/// Page type of an index leaf.
pub const LEAF_INDEX: u8 = 10;

/// Page type of a table leaf.
pub const LEAF_TABLE: u8 = 13;

/// Where the b-tree header of page `pgno` starts: the file header comes first on page 1.
pub open spec fn header_offset(pgno: u32) -> int {
    if pgno == 1 {
        HEADER_LEN as int
    } else {
        0
    }
}

/// Where the b-tree header of page `pgno` starts.
pub fn btree_header_offset(pgno: u32) -> (at: usize)
    ensures
        at == header_offset(pgno),
        at <= 100,
{
    if pgno == 1 {
        HEADER_LEN
    } else {
        0
    }
}

/// Most payload bytes that a table leaf cell holds without spilling.
pub open spec fn max_local_table(usable: int) -> int {
    usable - 35
}

/// Most payload bytes that an index cell holds without spilling.
pub open spec fn max_local_index(usable: int) -> int {
    (usable - 12) * 64 / 255 - 23
}

/// Fewest payload bytes that stay in a cell that spills.
pub open spec fn min_local(usable: int) -> int {
    (usable - 12) * 32 / 255 - 23
}

/// The number of bytes of a payload of `payload_len` bytes that stay in its cell, where a
/// cell holds at most `limit` of them.
pub open spec fn local_len(usable: int, payload_len: int, limit: int) -> int {
    let spilled = min_local(usable) + (payload_len - min_local(usable)) % (usable - 4);
    if payload_len <= limit {
        payload_len
    } else if spilled <= limit {
        spilled
    } else {
        min_local(usable)
    }
}

/// How many payload bytes a cell holds, for pages of `usable` bytes.
pub struct CellGeometry {
    pub usable: u32,
}

impl CellGeometry {
    /// The number of usable bytes is one that a header admits.
    pub open spec fn wf(self) -> bool {
        480 <= self.usable <= 65536
    }

    /// Most payload bytes that a table leaf cell holds without spilling.
    pub fn max_local_table(&self) -> (n: u64)
        requires
            self.wf(),
        ensures
            n == max_local_table(self.usable as int),
    {
        self.usable as u64 - 35
    }

    /// Most payload bytes that an index cell, leaf or interior, holds without spilling.
    pub fn max_local_index(&self) -> (n: u64)
        requires
            self.wf(),
        ensures
            n == max_local_index(self.usable as int),
    {
        (self.usable as u64 - 12) * 64 / 255 - 23
    }

    /// Fewest payload bytes that stay in a cell that spills.
    pub fn min_local(&self) -> (n: u64)
        requires
            self.wf(),
        ensures
            n == min_local(self.usable as int),
    {
        (self.usable as u64 - 12) * 32 / 255 - 23
    }

    /// The number of bytes of a payload of `payload_len` bytes that stay in its cell, where a
    /// cell holds at most `limit` of them.
    pub fn local_len(&self, payload_len: u64, limit: u64) -> (n: u64)
        requires
            self.wf(),
            min_local(self.usable as int) <= limit <= self.usable,
        ensures
            n == local_len(self.usable as int, payload_len as int, limit as int),
            n <= self.usable,
            n <= payload_len,
    {
        if payload_len <= limit {
            return payload_len;
        }
        let m: u64 = self.min_local();
        let k: u64 = m + (payload_len - m) % (self.usable as u64 - 4);
        if k <= limit {
            k
        } else {
            m
        }
    }
}

/// Something that a page refers to, or a defect that was found where a reference should be.
pub enum Link {
    /// A child page.
    Child(u32),
    /// An overflow chain that starts at page `first` and carries `rest` payload bytes.
    Chain { first: u32, rest: nat },
    /// A defect: nothing after it is read.
    Fault(ErrorView),
}

/// What is said of a page that ends before its b-tree header or its chain pointer does.
pub open spec fn short_page(pgno: u32) -> ErrorView {
    invalid_data("page "@ + dec(pgno as nat) + ": too short"@)
}

/// Makes the error for a page that is too short.
pub fn short_page_error(pgno: u32) -> (e: Error)
    ensures
        e@ == short_page(pgno),
{
    page_error(pgno, ": too short")
}

/// The error that starts with the page it is about.
pub fn page_error(pgno: u32, rest: &str) -> (e: Error)
    ensures
        e@ == invalid_data("page "@ + dec(pgno as nat) + rest@),
{
    let mut m = "page ".to_string();
    m.push_str(decimal(pgno as u64).as_str());
    m.push_str(rest);
    Error::invalid_data(m)
}

/// Is `kind` the type of an interior page?
pub open spec fn is_interior(kind: u8) -> bool {
    kind == INTERIOR_INDEX || kind == INTERIOR_TABLE
}

/// Is `kind` the type of a b-tree page at all?
pub open spec fn is_btree_kind(kind: u8) -> bool {
    is_interior(kind) || kind == LEAF_INDEX || kind == LEAF_TABLE
}

/// The length of the b-tree header of a page of type `kind`.
pub open spec fn page_header_len(kind: u8) -> int {
    if is_interior(kind) {
        12
    } else {
        8
    }
}

/// The chain of a payload of `payload_len` bytes that starts at `start` in `cell`, if it
/// spills.
pub open spec fn payload_links(
    cell: Seq<u8>,
    start: nat,
    payload_len: nat,
    limit: int,
    usable: int,
) -> Seq<Link> {
    let local = local_len(usable, payload_len as int, limit);
    if payload_len <= local {
        seq![]
    } else if start + local + 4 > cell.len() {
        seq![Link::Fault(invalid_data("cell overflow pointer truncated"@))]
    } else {
        seq![Link::Chain { first: be32(cell, start + local), rest: (payload_len - local) as nat }]
    }
}

/// The chain of an index cell whose payload length stands at `at`.
pub open spec fn index_links(cell: Seq<u8>, at: nat, usable: int) -> Seq<Link> {
    match varint(cell.skip(at as int)) {
        None => seq![Link::Fault(invalid_data("truncated varint"@))],
        Some((payload_len, n)) => payload_links(
            cell,
            at + n,
            payload_len,
            max_local_index(usable),
            usable,
        ),
    }
}

/// The chain of a table leaf cell.
pub open spec fn table_links(cell: Seq<u8>, usable: int) -> Seq<Link> {
    match varint(cell) {
        None => seq![Link::Fault(invalid_data("truncated varint"@))],
        Some((payload_len, n)) => match varint(cell.skip(n as int)) {
            None => seq![Link::Fault(invalid_data("truncated varint"@))],
            Some((_, m)) => payload_links(
                cell,
                n + m,
                payload_len,
                max_local_table(usable),
                usable,
            ),
        },
    }
}

/// What the bytes `cell` of page `pgno`, of type `kind`, refer to.
pub open spec fn links_in_cell(pgno: u32, kind: u8, cell: Seq<u8>, usable: int) -> Seq<Link> {
    if is_interior(kind) && cell.len() < 4 {
        seq![
            Link::Fault(
                invalid_data("page "@ + dec(pgno as nat) + ": interior cell truncated"@),
            ),
        ]
    } else if kind == INTERIOR_TABLE {
        seq![Link::Child(be32(cell, 0))]
    } else if kind == INTERIOR_INDEX {
        seq![Link::Child(be32(cell, 0))] + index_links(cell, 4, usable)
    } else if kind == LEAF_INDEX {
        index_links(cell, 0, usable)
    } else {
        table_links(cell, usable)
    }
}

/// What cell `i` of `page` refers to.
pub open spec fn cell_links(pgno: u32, page: Seq<u8>, i: nat, usable: int) -> Seq<Link> {
    let kind = page[header_offset(pgno)];
    let at = header_offset(pgno) + page_header_len(kind) + 2 * i;
    if at + 2 > page.len() {
        seq![
            Link::Fault(
                invalid_data(
                    "page "@ + dec(pgno as nat) + ": cell pointer array truncated"@,
                ),
            ),
        ]
    } else if be16(page, at) >= page.len() {
        seq![
            Link::Fault(
                invalid_data(
                    "page "@ + dec(pgno as nat) + ": cell "@ + dec(i) + " offset "@ + dec(
                        be16(page, at),
                    ) + " out of page"@,
                ),
            ),
        ]
    } else {
        links_in_cell(pgno, kind, page.skip(be16(page, at) as int), usable)
    }
}

/// What the cells of `page` from cell `i` on refer to, `count` being their number.
pub open spec fn cells_links(
    pgno: u32,
    page: Seq<u8>,
    i: nat,
    count: nat,
    usable: int,
) -> Seq<Link>
    decreases count - i,
{
    if i >= count {
        seq![]
    } else {
        cell_links(pgno, page, i, usable) + cells_links(pgno, page, i + 1, count, usable)
    }
}

/// What page `pgno`, holding `page`, refers to: the rightmost child of an interior page,
/// and then what each cell does, in the order of the cell pointer array.
pub open spec fn page_links(pgno: u32, page: Seq<u8>, usable: int) -> Seq<Link> {
    let at = header_offset(pgno);
    let kind = page[at];
    if page.len() < at + 5 {
        seq![Link::Fault(short_page(pgno))]
    } else if !is_btree_kind(kind) {
        seq![
            Link::Fault(
                invalid_data(
                    "page "@ + dec(pgno as nat) + ": unknown b-tree page type "@ + dec(
                        kind as nat,
                    ),
                ),
            ),
        ]
    } else if is_interior(kind) {
        if page.len() < at + 12 {
            seq![Link::Fault(short_page(pgno))]
        } else {
            seq![Link::Child(be32(page, at + 8))] + cells_links(
                pgno,
                page,
                0,
                be16(page, at + 3),
                usable,
            )
        }
    } else {
        cells_links(pgno, page, 0, be16(page, at + 3), usable)
    }
}

/// What one cell refers to: at most one child and one chain.
pub struct CellLinks {
    pub child: Option<u32>,
    pub chain: Option<(u32, u64)>,
}

impl CellLinks {
    /// The chain, if there is one.
    pub open spec fn chain_links(self) -> Seq<Link> {
        match self.chain {
            None => seq![],
            Some((first, rest)) => seq![Link::Chain { first, rest: rest as nat }],
        }
    }

    /// The references in the order in which they are followed.
    pub open spec fn links(self) -> Seq<Link> {
        match self.child {
            None => self.chain_links(),
            Some(p) => seq![Link::Child(p)] + self.chain_links(),
        }
    }
}

/// `links` ends in the fault `e`, and only children come before it.
pub open spec fn faulty(links: Seq<Link>, e: ErrorView) -> bool {
    &&& links.len() > 0
    &&& links.last() == Link::Fault(e)
    &&& forall|i: int| 0 <= i < links.len() - 1 ==> links[i] is Child
}

fn read_payload_links(
    cell: &[u8],
    start: usize,
    payload_len: u64,
    limit: u64,
    geo: &CellGeometry,
) -> (r: Result<Option<(u32, u64)>, Error>)
    requires
        geo.wf(),
        min_local(geo.usable as int) <= limit <= geo.usable,
        start <= cell@.len(),
        start <= 100,
    ensures
        match r {
            Ok(chain) => payload_links(
                cell@,
                start as nat,
                payload_len as nat,
                limit as int,
                geo.usable as int,
            ) == (CellLinks { child: None, chain }).chain_links() && (chain matches Some((_, rest))
                ==> rest > 0),
            Err(e) => payload_links(
                cell@,
                start as nat,
                payload_len as nat,
                limit as int,
                geo.usable as int,
            ) == seq![Link::Fault(e@)],
        },
{
    let local: u64 = geo.local_len(payload_len, limit);
    if payload_len <= local {
        return Ok(None);
    }
    let p: usize = start + local as usize;
    if p + 4 > cell.len() {
        return Err(Error::invalid_data("cell overflow pointer truncated".to_string()));
    }
    Ok(Some((read_be32(cell, p), payload_len - local)))
}

fn truncated_varint() -> (e: Error)
    ensures
        e@ == invalid_data("truncated varint"@),
{
    Error::invalid_data("truncated varint".to_string())
}

fn read_index_links(cell: &[u8], at: usize, geo: &CellGeometry) -> (r: Result<
    Option<(u32, u64)>,
    Error,
>)
    requires
        geo.wf(),
        at <= cell@.len(),
        at <= 4,
    ensures
        match r {
            Ok(chain) => index_links(cell@, at as nat, geo.usable as int) == (CellLinks {
                child: None,
                chain,
            }).chain_links() && (chain matches Some((_, rest)) ==> rest > 0),
            Err(e) => index_links(cell@, at as nat, geo.usable as int) == seq![Link::Fault(e@)],
        },
{
    let tail = slice_subrange(cell, at, cell.len());
    assert(tail@ =~= cell@.skip(at as int));
    match read_varint(tail) {
        Err(_) => Err(truncated_varint()),
        Ok((payload_len, n)) => read_payload_links(
            cell,
            at + n,
            payload_len,
            geo.max_local_index(),
            geo,
        ),
    }
}

fn read_table_links(cell: &[u8], geo: &CellGeometry) -> (r: Result<Option<(u32, u64)>, Error>)
    requires
        geo.wf(),
    ensures
        match r {
            Ok(chain) => table_links(cell@, geo.usable as int) == (CellLinks {
                child: None,
                chain,
            }).chain_links() && (chain matches Some((_, rest)) ==> rest > 0),
            Err(e) => table_links(cell@, geo.usable as int) == seq![Link::Fault(e@)],
        },
{
    match read_varint(cell) {
        Err(_) => Err(truncated_varint()),
        Ok((payload_len, n)) => {
            let tail = slice_subrange(cell, n, cell.len());
            assert(tail@ =~= cell@.skip(n as int));
            match read_varint(tail) {
                Err(_) => Err(truncated_varint()),
                Ok((_, m)) => read_payload_links(
                    cell,
                    n + m,
                    payload_len,
                    geo.max_local_table(),
                    geo,
                ),
            }
        },
    }
}

/// Reads what cell `i` of `page` refers to.
pub fn read_cell_links(pgno: u32, page: &Vec<u8>, i: usize, geo: &CellGeometry) -> (r: Result<
    CellLinks,
    Error,
>)
    requires
        geo.wf(),
        i < 0x1_0000,
        header_offset(pgno) < page@.len(),
        is_btree_kind(page@[header_offset(pgno)]),
    ensures
        match r {
            Ok(c) => cell_links(pgno, page@, i as nat, geo.usable as int) == c.links()
                && (c.chain matches Some((_, rest)) ==> rest > 0),
            Err(e) => faulty(cell_links(pgno, page@, i as nat, geo.usable as int), e@),
        },
{
    let hoff: usize = btree_header_offset(pgno);
    let kind: u8 = page[hoff];
    let interior = kind == INTERIOR_INDEX || kind == INTERIOR_TABLE;
    let header_len: usize = if interior {
        12
    } else {
        8
    };
    let po: usize = hoff + header_len + 2 * i;
    if po + 2 > page.len() {
        return Err(page_error(pgno, ": cell pointer array truncated"));
    }
    let cell_off: usize = read_be16(page.as_slice(), po);
    if cell_off >= page.len() {
        let mut m = "page ".to_string();
        m.push_str(decimal(pgno as u64).as_str());
        m.push_str(": cell ");
        m.push_str(decimal(i as u64).as_str());
        m.push_str(" offset ");
        m.push_str(decimal(cell_off as u64).as_str());
        m.push_str(" out of page");
        return Err(Error::invalid_data(m));
    }
    let cell = slice_subrange(page.as_slice(), cell_off, page.len());
    assert(cell@ =~= page@.skip(cell_off as int));
    if interior && cell.len() < 4 {
        return Err(page_error(pgno, ": interior cell truncated"));
    }
    let ghost links = cell_links(pgno, page@, i as nat, geo.usable as int);
    if kind == INTERIOR_TABLE {
        let c = CellLinks { child: Some(read_be32(cell, 0)), chain: None };
        assert(links =~= c.links());
        Ok(c)
    } else if kind == INTERIOR_INDEX {
        let child: u32 = read_be32(cell, 0);
        match read_index_links(cell, 4, geo) {
            Ok(chain) => Ok(CellLinks { child: Some(child), chain }),
            Err(e) => {
                assert(links =~= seq![Link::Child(child), Link::Fault(e@)]);
                Err(e)
            },
        }
    } else {
        let r = if kind == LEAF_INDEX {
            read_index_links(cell, 0, geo)
        } else {
            read_table_links(cell, geo)
        };
        match r {
            Ok(chain) => Ok(CellLinks { child: None, chain }),
            Err(e) => Err(e),
        }
    }
}

} // verus!
