//! Reading `sqlite_schema`: which objects own a b-tree, and where it is rooted.

use vstd::prelude::*;
use vstd::slice::slice_subrange;
use vstd::slice::slice_to_vec;

use crate::btree::links::btree_header_offset;
use crate::btree::links::header_offset;
use crate::btree::links::local_len;
use crate::btree::links::max_local_table;
use crate::btree::links::short_page;
use crate::btree::links::short_page_error;
use crate::btree::links::CellGeometry;
use crate::btree::links::INTERIOR_TABLE;
use crate::btree::links::LEAF_TABLE;
use crate::bytes::be16;
use crate::bytes::be32;
use crate::bytes::read_be16;
use crate::bytes::read_be32;
use crate::dbfile::PageSource;
use crate::dbfile::Pages;
use crate::error::invalid_data;
use crate::error::Error;
use crate::error::ErrorView;
use crate::order::name_le;
use crate::order::name_le_total;
use crate::order::name_le_transitive;
use crate::order::name_not_after;
use crate::order::place_at;
use crate::order::preorder;
use crate::order::stable_sort;
use crate::order::stable_sort_facts;
use crate::record::decode_record;
use crate::record::read_varint;
use crate::record::record;
use crate::record::value_views;
use crate::record::varint;
use crate::record::Value;
use crate::record::ValueView;
use crate::text::dec;
use crate::text::decimal;
use crate::text::same_text;

verus! {

/// One row of `sqlite_schema` that owns a b-tree.
#[derive(Debug, Clone, PartialEq, Eq)]
pub struct SchemaObject {
    /// `table` or `index`.
    pub otype: String,
    pub name: String,
    /// The table that an index belongs to; the name itself for a table.
    pub tbl_name: String,
    pub rootpage: u32,
}

/// The mathematical value of a [`SchemaObject`].
pub struct SchemaObjectView {
    pub otype: Seq<char>,
    pub name: Seq<char>,
    pub tbl_name: Seq<char>,
    pub rootpage: u32,
}

impl View for SchemaObject {
    type V = SchemaObjectView;

    open spec fn view(&self) -> SchemaObjectView {
        SchemaObjectView {
            otype: self.otype@,
            name: self.name@,
            tbl_name: self.tbl_name@,
            rootpage: self.rootpage,
        }
    }
}

/// The views of a sequence of schema objects.
pub open spec fn object_views(objects: Seq<SchemaObject>) -> Seq<SchemaObjectView> {
    Seq::new(objects.len(), |i: int| objects[i]@)
}

// ---------------------------------------------------------------------------------------
// Payloads
// ---------------------------------------------------------------------------------------
/// The whole payload of `payload_len` bytes, of which `got` is known and the rest lies on the
/// overflow chain from page `next` on, `hops` pages of which have been read.
pub open spec fn gather(src: Pages, next: u32, payload_len: nat, got: Seq<u8>, hops: nat) -> Result<
    Seq<u8>,
    ErrorView,
>
    decreases src.header.page_count - hops,
{
    let capacity = src.header.usable() - 4;
    let want = if payload_len - got.len() < capacity {
        payload_len - got.len()
    } else {
        capacity
    };
    if got.len() == payload_len {
        Ok(got)
    } else if next == 0 {
        Err(invalid_data("overflow chain shorter than payload length"@))
    } else if hops >= src.header.page_count {
        Err(invalid_data("overflow chain cycle while reading payload"@))
    } else {
        match (src.read)(next) {
            Err(e) => Err(e),
            Ok(page) => if page.len() < 4 + want {
                Err(short_page(next))
            } else {
                gather(
                    src,
                    be32(page, 0),
                    payload_len,
                    got + page.subrange(4, 4 + want),
                    hops + 1,
                )
            },
        }
    }
}

/// The payload of `payload_len` bytes whose part in the cell starts `body`.
pub open spec fn payload_from(src: Pages, body: Seq<u8>, payload_len: nat) -> Result<
    Seq<u8>,
    ErrorView,
> {
    let usable = src.header.usable();
    let local = local_len(usable, payload_len as int, max_local_table(usable));
    if body.len() < local {
        Err(invalid_data("cell payload truncated"@))
    } else if local == payload_len {
        Ok(body.take(local))
    } else if body.len() < local + 4 {
        Err(invalid_data("cell overflow pointer truncated"@))
    } else {
        gather(src, be32(body, local), payload_len, body.take(local), 0)
    }
}

/// The payload of the table leaf cell at the start of `cell`: what the cell holds of it, and
/// what its overflow chain does.
pub open spec fn cell_payload(src: Pages, cell: Seq<u8>) -> Result<Seq<u8>, ErrorView> {
    match varint(cell) {
        None => Err(invalid_data("truncated varint"@)),
        Some((payload_len, n)) => match varint(cell.skip(n as int)) {
            None => Err(invalid_data("truncated varint"@)),
            Some((_, m)) => payload_from(src, cell.skip((n + m) as int), payload_len),
        },
    }
}

fn gather_payload<S: PageSource>(
    src: &mut S,
    first: u32,
    payload_len: u64,
    local: Vec<u8>,
) -> (r: Result<Vec<u8>, Error>)
    requires
        old(src).wf(),
        local@.len() < payload_len,
    ensures
        final(src).wf(),
        final(src).pages() == old(src).pages(),
        match r {
            Ok(payload) => gather(old(src).pages(), first, payload_len as nat, local@, 0) == Ok::<
                Seq<u8>,
                ErrorView,
            >(payload@),
            Err(e) => gather(old(src).pages(), first, payload_len as nat, local@, 0) == Err::<
                Seq<u8>,
                ErrorView,
            >(e@),
        },
{
    let page_count: u32 = src.page_count();
    let capacity: u64 = src.header().usable_size() as u64 - 4;
    let ghost all = src.pages();
    let ghost whole = gather(all, first, payload_len as nat, local@, 0);
    let mut payload = local;
    let mut next: u32 = first;
    let mut hops: u32 = 0;
    while next != 0 && (payload.len() as u64) < payload_len
        invariant
            src.wf(),
            src.pages() == all,
            all == old(src).pages(),
            page_count == all.header.page_count,
            capacity == all.header.usable() - 4,
            0 < capacity <= 65536,
            hops <= page_count,
            payload@.len() <= payload_len,
            whole == gather(all, first, payload_len as nat, local@, 0),
            whole == gather(all, next, payload_len as nat, payload@, hops as nat),
        decreases page_count - hops,
    {
        if hops >= page_count {
            return Err(
                Error::invalid_data("overflow chain cycle while reading payload".to_string()),
            );
        }
        hops = hops + 1;
        let page = match src.page(next) {
            Ok(p) => p,
            Err(e) => {
                return Err(e);
            },
        };
        let left: u64 = payload_len - payload.len() as u64;
        let want: usize = if left < capacity {
            left as usize
        } else {
            capacity as usize
        };
        if page.len() < 4 + want {
            return Err(short_page_error(next));
        }
        let ghost before = payload@;
        payload.extend_from_slice(slice_subrange(page.as_slice(), 4, 4 + want));
        assert(payload@ =~= before + page@.subrange(4, 4 + want));
        next = read_be32(page.as_slice(), 0);
    }
    if (payload.len() as u64) != payload_len {
        return Err(Error::invalid_data("overflow chain shorter than payload length".to_string()));
    }
    Ok(payload)
}

/// Assembles the whole payload of a table leaf cell, following its overflow chain if needed.
fn read_cell_payload<S: PageSource>(src: &mut S, cell: &[u8], geo: &CellGeometry) -> (r: Result<
    Vec<u8>,
    Error,
>)
    requires
        old(src).wf(),
        geo.wf(),
        geo.usable == old(src).pages().header.usable(),
    ensures
        final(src).wf(),
        final(src).pages() == old(src).pages(),
        match r {
            Ok(payload) => cell_payload(old(src).pages(), cell@) == Ok::<Seq<u8>, ErrorView>(
                payload@,
            ),
            Err(e) => cell_payload(old(src).pages(), cell@) == Err::<Seq<u8>, ErrorView>(e@),
        },
{
    let (payload_len, n) = match read_varint(cell) {
        Ok(p) => p,
        Err(e) => {
            return Err(Error::invalid_data(e.0));
        },
    };
    let tail = slice_subrange(cell, n, cell.len());
    assert(tail@ =~= cell@.skip(n as int));
    let m: usize = match read_varint(tail) {
        Ok((_, m)) => m,
        Err(e) => {
            return Err(Error::invalid_data(e.0));
        },
    };
    let local: u64 = geo.local_len(payload_len, geo.max_local_table());
    let body = slice_subrange(cell, n + m, cell.len());
    assert(body@ =~= cell@.skip(n + m));
    if (body.len() as u64) < local {
        return Err(Error::invalid_data("cell payload truncated".to_string()));
    }
    let here: usize = local as usize;
    let payload = slice_to_vec(slice_subrange(body, 0, here));
    assert(payload@ =~= body@.take(here as int));
    if local == payload_len {
        return Ok(payload);
    }
    if body.len() < here + 4 {
        return Err(Error::invalid_data("cell overflow pointer truncated".to_string()));
    }
    gather_payload(src, read_be32(body, here), payload_len, payload)
}

// ---------------------------------------------------------------------------------------
// Rows
// ---------------------------------------------------------------------------------------
/// The text of a column; nothing for a column that is not text.
pub open spec fn text_or_empty(v: ValueView) -> Seq<char> {
    match v {
        ValueView::Text(t) => t,
        _ => Seq::empty(),
    }
}

/// The root page in a column: the number if it is a positive integer, else none.
pub open spec fn root_in(v: ValueView) -> nat {
    match v {
        ValueView::Int(n) => if n > 0 {
            n as nat
        } else {
            0
        },
        _ => 0,
    }
}

/// Does an object of type `otype` with root page `rootpage` own a b-tree? Views and triggers
/// have no root page.
pub open spec fn owns_btree(otype: Seq<char>, rootpage: nat) -> bool {
    rootpage != 0 && (otype == "table"@ || otype == "index"@)
}

/// The object that the row `(type, name, tbl_name, rootpage, ..)` describes, if it owns a
/// b-tree. Page numbers have 32 bits: a larger root page is a defect.
pub open spec fn schema_row(values: Seq<ValueView>) -> Result<Option<SchemaObjectView>, ErrorView> {
    if values.len() < 4 {
        Err(invalid_data("schema record with fewer than 4 columns"@))
    } else if !owns_btree(text_or_empty(values[0]), root_in(values[3])) {
        Ok(None)
    } else if root_in(values[3]) > u32::MAX {
        Err(invalid_data("schema root page "@ + dec(root_in(values[3])) + " out of range"@))
    } else {
        Ok(
            Some(
                SchemaObjectView {
                    otype: text_or_empty(values[0]),
                    name: text_or_empty(values[1]),
                    tbl_name: text_or_empty(values[2]),
                    rootpage: root_in(values[3]) as u32,
                },
            ),
        )
    }
}

fn column_text(v: &Value) -> (s: String)
    ensures
        s@ == text_or_empty(v@),
{
    match v.as_text() {
        Some(t) => t.to_string(),
        None => {
            let s = String::new();
            assert(s@ =~= Seq::empty());
            s
        },
    }
}

/// The object that a decoded row of `sqlite_schema` describes, if it owns a b-tree.
pub fn schema_object(values: &Vec<Value>) -> (r: Result<Option<SchemaObject>, Error>)
    ensures
        match r {
            Ok(Some(o)) => schema_row(value_views(values@)) == Ok::<
                Option<SchemaObjectView>,
                ErrorView,
            >(Some(o@)),
            Ok(None) => schema_row(value_views(values@)) == Ok::<
                Option<SchemaObjectView>,
                ErrorView,
            >(None),
            Err(e) => schema_row(value_views(values@)) == Err::<
                Option<SchemaObjectView>,
                ErrorView,
            >(e@),
        },
{
    if values.len() < 4 {
        return Err(Error::invalid_data("schema record with fewer than 4 columns".to_string()));
    }
    let otype = column_text(&values[0]);
    let root: u64 = match &values[3] {
        Value::Int(v) => if *v > 0 {
            *v as u64
        } else {
            0
        },
        _ => 0,
    };
    if root == 0 || !(same_text(otype.as_str(), "table") || same_text(otype.as_str(), "index")) {
        return Ok(None);
    }
    if root > u32::MAX as u64 {
        let mut m = "schema root page ".to_string();
        m.push_str(decimal(root).as_str());
        m.push_str(" out of range");
        return Err(Error::invalid_data(m));
    }
    let name = column_text(&values[1]);
    let tbl_name = column_text(&values[2]);
    Ok(Some(SchemaObject { otype, name, tbl_name, rootpage: root as u32 }))
}

// ---------------------------------------------------------------------------------------
// The schema table
// ---------------------------------------------------------------------------------------
/// How far reading the schema table has come.
pub struct Scan {
    /// Pages still to be read, the next one last.
    pub stack: Seq<u32>,
    /// The objects found so far.
    pub objects: Seq<SchemaObjectView>,
    /// The number of pages read so far.
    pub visits: nat,
}

/// The start of what is said of a schema page.
pub open spec fn schema_page(pgno: u32) -> Seq<char> {
    "schema page "@ + dec(pgno as nat)
}

/// The scan after the record in the leaf cell `cell` was read.
pub open spec fn scan_row(src: Pages, cell: Seq<u8>, st: Scan) -> Result<Scan, ErrorView> {
    match cell_payload(src, cell) {
        Err(e) => Err(e),
        Ok(payload) => match record(payload) {
            Err(m) => Err(invalid_data(m)),
            Ok(values) => match schema_row(values) {
                Err(e) => Err(e),
                Ok(None) => Ok(st),
                Ok(Some(o)) => Ok(Scan { objects: st.objects.push(o), ..st }),
            },
        },
    }
}

/// The scan after cell `i` of `page` was read.
pub open spec fn scan_cell(src: Pages, pgno: u32, page: Seq<u8>, i: nat, st: Scan) -> Result<
    Scan,
    ErrorView,
> {
    let interior = page[header_offset(pgno)] == INTERIOR_TABLE;
    let at = header_offset(pgno) + 2 * i + if interior {
        12int
    } else {
        8int
    };
    let cell = page.skip(be16(page, at) as int);
    if at + 2 > page.len() {
        Err(invalid_data(schema_page(pgno) + ": cell pointer array truncated"@))
    } else if be16(page, at) >= page.len() {
        Err(
            invalid_data(
                schema_page(pgno) + ": cell "@ + dec(i) + " offset "@ + dec(be16(page, at))
                    + " out of page"@,
            ),
        )
    } else if !interior {
        scan_row(src, cell, st)
    } else if cell.len() < 4 {
        Err(invalid_data(schema_page(pgno) + ": interior cell truncated"@))
    } else {
        Ok(Scan { stack: st.stack.push(be32(cell, 0)), ..st })
    }
}

/// The scan after the cells of `page` from cell `i` on, of `count`, were read.
pub open spec fn scan_cells(
    src: Pages,
    pgno: u32,
    page: Seq<u8>,
    i: nat,
    count: nat,
    st: Scan,
) -> Result<Scan, ErrorView>
    decreases count - i,
{
    if i >= count {
        Ok(st)
    } else {
        match scan_cell(src, pgno, page, i, st) {
            Err(e) => Err(e),
            Ok(next) => scan_cells(src, pgno, page, i + 1, count, next),
        }
    }
}

/// The scan after page `pgno` was read.
pub open spec fn scan_page(src: Pages, pgno: u32, page: Seq<u8>, st: Scan) -> Result<
    Scan,
    ErrorView,
> {
    let at = header_offset(pgno);
    if page.len() < at + 5 {
        Err(short_page(pgno))
    } else if page[at] == INTERIOR_TABLE {
        if page.len() < at + 12 {
            Err(short_page(pgno))
        } else {
            scan_cells(
                src,
                pgno,
                page,
                0,
                be16(page, at + 3),
                Scan { stack: st.stack.push(be32(page, at + 8)), ..st },
            )
        }
    } else if page[at] != LEAF_TABLE {
        Err(invalid_data(schema_page(pgno) + " has non-table type "@ + dec(page[at] as nat)))
    } else {
        scan_cells(src, pgno, page, 0, be16(page, at + 3), st)
    }
}

/// Reads the pages on the stack, and those they lead to, until the stack is empty. More
/// visits than the database has pages mean that the pointers run in a circle.
pub open spec fn scan_on(src: Pages, st: Scan) -> Result<Seq<SchemaObjectView>, ErrorView>
    decreases src.header.page_count - st.visits,
{
    let pgno = st.stack.last();
    if st.stack.len() == 0 {
        Ok(st.objects)
    } else if st.visits >= src.header.page_count {
        Err(invalid_data("schema b-tree cycle"@))
    } else {
        match (src.read)(pgno) {
            Err(e) => Err(e),
            Ok(page) => match scan_page(
                src,
                pgno,
                page,
                Scan { stack: st.stack.drop_last(), visits: st.visits + 1, ..st },
            ) {
                Err(e) => Err(e),
                Ok(next) => {
                    proof {
                        scan_page_visits(
                            src,
                            pgno,
                            page,
                            Scan { stack: st.stack.drop_last(), visits: st.visits + 1, ..st },
                        );
                    }
                    scan_on(src, next)
                },
            },
        }
    }
}

/// The order of schema objects: by name.
pub open spec fn object_le() -> spec_fn(SchemaObjectView, SchemaObjectView) -> bool {
    |a: SchemaObjectView, b: SchemaObjectView| name_le(a.name, b.name)
}

/// Every object of the database that owns a b-tree, by name, or the first defect met while
/// reading the schema table, which is rooted at page 1.
pub open spec fn schema(src: Pages) -> Result<Seq<SchemaObjectView>, ErrorView> {
    if src.header.text_encoding != 1 {
        Err(
            invalid_data(
                "unsupported text encoding "@ + dec(src.header.text_encoding as nat)
                    + " (litegraft 0.1 reads UTF-8 databases)"@,
            ),
        )
    } else {
        match scan_on(src, Scan { stack: seq![1u32], objects: Seq::empty(), visits: 0 }) {
            Err(e) => Err(e),
            Ok(objects) => Ok(stable_sort(objects, object_le())),
        }
    }
}

/// Reading cells visits no page.
pub proof fn scan_cells_visits(
    src: Pages,
    pgno: u32,
    page: Seq<u8>,
    i: nat,
    count: nat,
    st: Scan,
)
    ensures
        scan_cells(src, pgno, page, i, count, st) matches Ok(next) ==> next.visits == st.visits,
    decreases count - i,
{
    if i < count {
        if let Ok(next) = scan_cell(src, pgno, page, i, st) {
            scan_cells_visits(src, pgno, page, i + 1, count, next);
        }
    }
}

/// Reading a page visits no other page.
pub proof fn scan_page_visits(src: Pages, pgno: u32, page: Seq<u8>, st: Scan)
    ensures
        scan_page(src, pgno, page, st) matches Ok(next) ==> next.visits == st.visits,
{
    let at = header_offset(pgno);
    scan_cells_visits(src, pgno, page, 0, be16(page, at + 3), st);
    scan_cells_visits(
        src,
        pgno,
        page,
        0,
        be16(page, at + 3),
        Scan { stack: st.stack.push(be32(page, at + 8)), ..st },
    );
}

fn sort_objects(objects: Vec<SchemaObject>) -> (r: Vec<SchemaObject>)
    ensures
        object_views(r@) == stable_sort(object_views(objects@), object_le()),
{
    let mut rest = objects;
    let mut r: Vec<SchemaObject> = Vec::new();
    assert(object_views(objects@).skip(objects@.len() as int) =~= Seq::empty());
    assert(object_views(r@) =~= Seq::empty());
    while rest.len() > 0
        invariant
            rest@.len() <= objects@.len(),
            rest@ == objects@.take(rest@.len() as int),
            object_views(r@) == stable_sort(
                object_views(objects@).skip(rest@.len() as int),
                object_le(),
            ),
        decreases rest@.len(),
    {
        let ghost n = rest@.len() - 1;
        let ghost placed = object_views(r@);
        let x = rest.pop().unwrap();
        let mut k: usize = 0;
        while k < r.len() && !name_not_after(x.name.as_str(), r[k].name.as_str())
            invariant
                k <= r@.len(),
                forall|j: int| 0 <= j < k ==> !object_le()(x@, #[trigger] object_views(r@)[j]),
            decreases r@.len() - k,
        {
            k = k + 1;
        }
        proof {
            place_at(x@, placed, object_le(), k as int);
            let tail = object_views(objects@).skip(n);
            assert(tail.first() == x@);
            assert(tail.drop_first() =~= object_views(objects@).skip(n + 1));
            assert(rest@ =~= objects@.take(n));
        }
        r.insert(k, x);
        assert(object_views(r@) =~= placed.insert(k as int, x@));
    }
    assert(object_views(objects@).skip(0) =~= object_views(objects@));
    r
}

fn schema_page_error(pgno: u32, rest: &str) -> (e: Error)
    ensures
        e@ == invalid_data(schema_page(pgno) + rest@),
{
    let mut m = "schema page ".to_string();
    m.push_str(decimal(pgno as u64).as_str());
    m.push_str(rest);
    Error::invalid_data(m)
}

/// Reads cell `i` of a schema page: a child goes on the stack, a row to the objects.
fn read_schema_cell<S: PageSource>(
    src: &mut S,
    pgno: u32,
    page: &Vec<u8>,
    i: usize,
    geo: &CellGeometry,
    stack: &mut Vec<u32>,
    objects: &mut Vec<SchemaObject>,
) -> (r: Result<(), Error>)
    requires
        old(src).wf(),
        geo.wf(),
        geo.usable == old(src).pages().header.usable(),
        i < 0xffff,
        header_offset(pgno) < page@.len(),
    ensures
        final(src).wf(),
        final(src).pages() == old(src).pages(),
        forall|visits: nat| #![auto]
            scan_cell(
                old(src).pages(),
                pgno,
                page@,
                i as nat,
                (Scan { stack: old(stack)@, objects: object_views(old(objects)@), visits }),
            ) == (match r {
                Ok(()) => Ok::<Scan, ErrorView>(
                    (Scan { stack: final(stack)@, objects: object_views(final(objects)@), visits }),
                ),
                Err(e) => Err::<Scan, ErrorView>(e@),
            }),
{
    let hoff: usize = btree_header_offset(pgno);
    let interior = page[hoff] == INTERIOR_TABLE;
    let header_len: usize = if interior {
        12
    } else {
        8
    };
    let po: usize = hoff + header_len + 2 * i;
    if po + 2 > page.len() {
        return Err(schema_page_error(pgno, ": cell pointer array truncated"));
    }
    let cell_off: usize = read_be16(page.as_slice(), po);
    if cell_off >= page.len() {
        let mut m = "schema page ".to_string();
        m.push_str(decimal(pgno as u64).as_str());
        m.push_str(": cell ");
        m.push_str(decimal(i as u64).as_str());
        m.push_str(" offset ");
        m.push_str(decimal(cell_off as u64).as_str());
        m.push_str(" out of page");
        return Err(Error::invalid_data(m));
    }
    let cell = slice_subrange(page.as_slice(), cell_off, page.len());
    assert(cell@ =~= page@.skip(cell_off as int));
    if interior {
        if cell.len() < 4 {
            return Err(schema_page_error(pgno, ": interior cell truncated"));
        }
        stack.push(read_be32(cell, 0));
    } else {
        let payload = match read_cell_payload(src, cell, &geo) {
            Ok(p) => p,
            Err(e) => {
                return Err(e);
            },
        };
        let values = match decode_record(payload.as_slice()) {
            Ok(v) => v,
            Err(e) => {
                return Err(Error::invalid_data(e.0));
            },
        };
        match schema_object(&values) {
            Err(e) => {
                return Err(e);
            },
            Ok(None) => {},
            Ok(Some(o)) => {
                let ghost found = object_views(objects@);
                let ghost v = o@;
                objects.push(o);
                assert(object_views(objects@) =~= found.push(v));
            },
        }
    }
    Ok(())
}

/// Reads `sqlite_schema`, the table rooted at page 1, and returns every object that owns a
/// b-tree, by name.
pub fn read_schema<S: PageSource>(src: &mut S) -> (r: Result<Vec<SchemaObject>, Error>)
    requires
        old(src).wf(),
    ensures
        final(src).wf(),
        final(src).pages() == old(src).pages(),
        match r {
            Ok(objects) => schema(old(src).pages()) == Ok::<Seq<SchemaObjectView>, ErrorView>(
                object_views(objects@),
            ),
            Err(e) => schema(old(src).pages()) == Err::<Seq<SchemaObjectView>, ErrorView>(e@),
        },
{
    let encoding: u32 = src.header().text_encoding;
    if encoding != 1 {
        let mut m = "unsupported text encoding ".to_string();
        m.push_str(decimal(encoding as u64).as_str());
        m.push_str(" (litegraft 0.1 reads UTF-8 databases)");
        return Err(Error::invalid_data(m));
    }
    let page_count: u32 = src.page_count();
    let geo = CellGeometry { usable: src.header().usable_size() };
    let ghost all = src.pages();
    let ghost start = Scan { stack: seq![1u32], objects: Seq::empty(), visits: 0 };
    let mut objects: Vec<SchemaObject> = Vec::new();
    let mut stack: Vec<u32> = Vec::new();
    let mut visits: u32 = 0;
    stack.push(1);
    proof {
        assert(stack@ =~= start.stack);
        assert(object_views(objects@) =~= start.objects);
    }
    while stack.len() > 0
        invariant
            src.wf(),
            src.pages() == all,
            all == old(src).pages(),
            all.header.text_encoding == 1,
            start == (Scan { stack: seq![1u32], objects: Seq::empty(), visits: 0 }),
            page_count == all.header.page_count,
            geo.wf(),
            geo.usable == all.header.usable(),
            visits <= page_count,
            scan_on(all, start) == scan_on(
                all,
                (Scan {
                    stack: stack@,
                    objects: object_views(objects@),
                    visits: visits as nat,
                }),
            ),
        decreases page_count - visits,
    {
        if visits >= page_count {
            return Err(Error::invalid_data("schema b-tree cycle".to_string()));
        }
        let ghost before = Scan {
            stack: stack@,
            objects: object_views(objects@),
            visits: visits as nat,
        };
        visits = visits + 1;
        let pgno: u32 = stack[stack.len() - 1];
        stack.pop();
        assert(stack@ =~= before.stack.drop_last());
        let page = match src.page(pgno) {
            Ok(p) => p,
            Err(e) => {
                return Err(e);
            },
        };
        let ghost here = scan_page(
            all,
            pgno,
            page@,
            Scan { stack: stack@, objects: object_views(objects@), visits: visits as nat },
        );
        let hoff: usize = btree_header_offset(pgno);
        if page.len() < hoff + 5 {
            return Err(short_page_error(pgno));
        }
        let kind: u8 = page[hoff];
        let ncells: usize = read_be16(page.as_slice(), hoff + 3);
        let interior = kind == INTERIOR_TABLE;
        if interior {
            if page.len() < hoff + 12 {
                return Err(short_page_error(pgno));
            }
            stack.push(read_be32(page.as_slice(), hoff + 8));
        } else if kind != LEAF_TABLE {
            let mut m = "schema page ".to_string();
            m.push_str(decimal(pgno as u64).as_str());
            m.push_str(" has non-table type ");
            m.push_str(decimal(kind as u64).as_str());
            return Err(Error::invalid_data(m));
        }
        proof {
            scan_cells_visits(
                all,
                pgno,
                page@,
                0,
                ncells as nat,
                Scan { stack: stack@, objects: object_views(objects@), visits: visits as nat },
            );
        }
        let mut i: usize = 0;
        while i < ncells
            invariant
                src.wf(),
                src.pages() == all,
                all == old(src).pages(),
                geo.wf(),
                geo.usable == all.header.usable(),
                i <= ncells <= 0xffff,
                header_offset(pgno) < page@.len(),
                here == scan_cells(
                    all,
                    pgno,
                    page@,
                    i as nat,
                    ncells as nat,
                    (Scan {
                        stack: stack@,
                        objects: object_views(objects@),
                        visits: visits as nat,
                    }),
                ),
                match here {
                    Err(e) => schema(all) == Err::<Seq<SchemaObjectView>, ErrorView>(e),
                    Ok(next) => scan_on(all, start) == scan_on(all, next),
                },
            decreases ncells - i,
        {
            if let Err(e) = read_schema_cell(src, pgno, &page, i, &geo, &mut stack, &mut objects) {
                return Err(e);
            }
            i = i + 1;
        }
    }
    Ok(sort_objects(objects))
}

// ---------------------------------------------------------------------------------------
// What the schema promises
// ---------------------------------------------------------------------------------------
/// Every one of `objects` owns a b-tree.
pub open spec fn all_own_btrees(objects: Seq<SchemaObjectView>) -> bool {
    forall|i: int|
        0 <= i < objects.len() ==> owns_btree(
            (#[trigger] objects[i]).otype,
            objects[i].rootpage as nat,
        )
}

proof fn scan_cells_own(src: Pages, pgno: u32, page: Seq<u8>, i: nat, count: nat, st: Scan)
    requires
        all_own_btrees(st.objects),
    ensures
        scan_cells(src, pgno, page, i, count, st) matches Ok(next) ==> all_own_btrees(next.objects),
    decreases count - i,
{
    if i < count {
        if let Ok(next) = scan_cell(src, pgno, page, i, st) {
            scan_cells_own(src, pgno, page, i + 1, count, next);
        }
    }
}

proof fn scan_on_own(src: Pages, st: Scan)
    requires
        all_own_btrees(st.objects),
    ensures
        scan_on(src, st) matches Ok(objects) ==> all_own_btrees(objects),
    decreases src.header.page_count - st.visits,
{
    if st.stack.len() > 0 && st.visits < src.header.page_count {
        let pgno = st.stack.last();
        let entered = Scan { stack: st.stack.drop_last(), visits: st.visits + 1, ..st };
        if let Ok(page) = (src.read)(pgno) {
            let at = header_offset(pgno);
            scan_page_visits(src, pgno, page, entered);
            scan_cells_own(src, pgno, page, 0, be16(page, at + 3), entered);
            scan_cells_own(
                src,
                pgno,
                page,
                0,
                be16(page, at + 3),
                Scan { stack: entered.stack.push(be32(page, at + 8)), ..entered },
            );
            if let Ok(next) = scan_page(src, pgno, page, entered) {
                scan_on_own(src, next);
            }
        }
    }
}

/// The schema lists tables and indexes by name, each with a root page; no view and no trigger.
pub proof fn schema_is_ordered(src: Pages, objects: Seq<SchemaObjectView>)
    requires
        schema(src) == Ok::<Seq<SchemaObjectView>, ErrorView>(objects),
    ensures
        forall|i: int, j: int|
            0 <= i < j < objects.len() ==> name_le(
                (#[trigger] objects[i]).name,
                (#[trigger] objects[j]).name,
            ),
        all_own_btrees(objects),
{
    broadcast use vstd::seq_lib::group_to_multiset_ensures;

    let start = Scan { stack: seq![1u32], objects: Seq::empty(), visits: 0 };
    let found = scan_on(src, start)->Ok_0;
    scan_on_own(src, start);
    assert(preorder(object_le())) by {
        assert forall|a: SchemaObjectView, b: SchemaObjectView| #[trigger]
            object_le()(a, b) || #[trigger] object_le()(b, a) by {
            name_le_total(a.name, b.name);
        }
        assert forall|a: SchemaObjectView, b: SchemaObjectView, c: SchemaObjectView| #[trigger]
            object_le()(a, b) && #[trigger] object_le()(b, c) implies object_le()(a, c) by {
            name_le_transitive(a.name, b.name, c.name);
        }
    }
    stable_sort_facts(found, object_le());
    assert forall|i: int, j: int| 0 <= i < j < objects.len() implies name_le(
        (#[trigger] objects[i]).name,
        (#[trigger] objects[j]).name,
    ) by {
        assert(object_le()(objects[i], objects[j]));
    }
    assert forall|i: int| 0 <= i < objects.len() implies owns_btree(
        (#[trigger] objects[i]).otype,
        objects[i].rootpage as nat,
    ) by {
        assert(objects.contains(objects[i]));
        assert(objects.to_multiset().count(objects[i]) > 0);
        assert(found.to_multiset().count(objects[i]) > 0);
        assert(found.contains(objects[i]));
        let k = choose|k: int| 0 <= k < found.len() && found[k] == objects[i];
        assert(owns_btree(found[k].otype, found[k].rootpage as nat));
    }
}

} // verus!
