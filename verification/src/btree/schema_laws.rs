//! What the schema lists, said of the bytes of its pages.

use vstd::prelude::*;

use crate::btree::links::local_len;
use crate::btree::links::max_local_table;
use crate::btree::links::page_links;
use crate::btree::links::Link;
use crate::btree::page_laws::cell_at;
use crate::btree::page_laws::cell_count;
use crate::btree::page_laws::cell_in_order;
use crate::btree::page_laws::child_pages;
use crate::btree::page_laws::child_pages_concat;
use crate::btree::page_laws::child_pages_of_one;
use crate::btree::page_laws::faultless;
use crate::btree::page_laws::header_at;
use crate::btree::page_laws::interior_page_has_every_child;
use crate::btree::page_laws::leaf_page_has_no_child;
use crate::btree::page_laws::linked;
use crate::btree::page_laws::page_is_in_order_iff_it_fits;
use crate::btree::page_laws::what_stays_in_a_cell;
use crate::btree::schema::cell_payload;
use crate::btree::schema::gather;
use crate::btree::schema::object_le;
use crate::btree::schema::payload_from;
use crate::btree::schema::scan_cell;
use crate::btree::schema::scan_cells;
use crate::btree::schema::scan_on;
use crate::btree::schema::scan_page;
use crate::btree::schema::scan_page_visits;
use crate::btree::schema::schema;
use crate::btree::schema::schema_row;
use crate::btree::schema::Scan;
use crate::btree::schema::SchemaObjectView;
use crate::btree::tree_laws::follow_keeps_btree;
use crate::btree::walk::chain;
use crate::btree::walk::enter;
use crate::btree::walk::follow;
use crate::btree::walk::follow_meets;
use crate::btree::walk::unseen;
use crate::btree::walk::unseen_at_first;
use crate::btree::walk::unseen_update;
use crate::btree::walk::walk;
use crate::btree::walk::walk_on;
use crate::btree::walk::walk_start;
use crate::btree::walk::BtreePagesView;
use crate::btree::walk::Trail;
use crate::btree::walk::Walk;
use crate::bytes::be32;
use crate::dbfile::Pages;
use crate::error::ErrorView;
use crate::order::ascending_facts;
use crate::order::name_le_total;
use crate::order::name_le_transitive;
use crate::order::preorder;
use crate::order::stable_sort_facts;
use crate::record::record;
use crate::record::ValueView;

verus! {

// ---------------------------------------------------------------------------------------
// Rows
// ---------------------------------------------------------------------------------------
/// The column `v` reads as the text `t`: it holds it, or `t` is empty and it holds no text.
pub open spec fn reads_as(v: ValueView, t: Seq<char>) -> bool {
    match v {
        ValueView::Text(s) => s == t,
        _ => t.len() == 0,
    }
}

/// The row `values` describes the object `o`: its type is the first column, its name the second,
/// its table's name the third and its root page the fourth.
pub open spec fn describes(values: Seq<ValueView>, o: SchemaObjectView) -> bool {
    &&& values.len() >= 4
    &&& values[0] == ValueView::Text(o.otype)
    &&& o.otype == "table"@ || o.otype == "index"@
    &&& reads_as(values[1], o.name)
    &&& reads_as(values[2], o.tbl_name)
    &&& values[3] == ValueView::Int(o.rootpage as i64)
    &&& o.rootpage > 0
}

/// A row stands for the object that it describes, and only tables and indexes with a root page
/// are objects: every other row of four columns or more stands for none.
pub proof fn row_stands_for_its_object(values: Seq<ValueView>, o: SchemaObjectView)
    ensures
        schema_row(values) == Ok::<Option<SchemaObjectView>, ErrorView>(Some(o)) <==> describes(
            values,
            o,
        ),
        schema_row(values) == Ok::<Option<SchemaObjectView>, ErrorView>(None) <==> values.len() >= 4
            && !((values[0] == ValueView::Text("table"@) || values[0] == ValueView::Text("index"@))
            && (values[3] matches ValueView::Int(n) && n > 0)),
        schema_row(values) is Err ==> values.len() < 4 || (values[3] matches ValueView::Int(n) && n
            > u32::MAX),
{
    reveal_strlit("table");
    reveal_strlit("index");
    if values.len() >= 4 {
        if let ValueView::Text(t) = values[0] {
            if values[0] == ValueView::Text("table"@) {
                assert(t == "table"@);
            }
        } else {
            assert("table"@.len() > 0 && "index"@.len() > 0);
        }
        if describes(values, o) {
            let made = schema_row(values)->Ok_0.unwrap();
            assert(made.name =~= o.name);
            assert(made.tbl_name =~= o.tbl_name);
        }
    }
}

// ---------------------------------------------------------------------------------------
// Payloads
// ---------------------------------------------------------------------------------------
/// The part of `rest` that page `k` of a chain carries, `room` bytes to a page.
pub open spec fn piece(rest: Seq<u8>, k: int, room: int) -> Seq<u8> {
    rest.subrange(
        k * room,
        if (k + 1) * room < rest.len() {
            (k + 1) * room
        } else {
            rest.len() as int
        },
    )
}

/// Page `p` carries `part` behind the number of the page that follows.
pub open spec fn carries(src: Pages, p: u32, part: Seq<u8>) -> bool {
    p != 0 && ((src.read)(p) matches Ok(page) && page.len() >= 4 + part.len() && page.subrange(
        4,
        4 + part.len() as int,
    ) == part)
}

/// `pages` carry `rest` between them, in order: as many pages as it takes, each naming the next.
pub open spec fn chain_carries(src: Pages, pages: Seq<u32>, rest: Seq<u8>) -> bool {
    let room = src.header.usable() - 4;
    &&& pages.len() > 0
    &&& (pages.len() - 1) * room < rest.len() <= pages.len() * room
    &&& forall|k: int|
        0 <= k < pages.len() ==> carries(src, #[trigger] pages[k], piece(rest, k, room))
    &&& linked(src, pages)
}

proof fn first_piece(rest: Seq<u8>, room: int)
    requires
        room > 0,
    ensures
        piece(rest, 0, room) == rest.take(if room < rest.len() {
            room
        } else {
            rest.len() as int
        }),
{
    assert(0 * room == 0 && (0 + 1) * room == room) by (nonlinear_arith);
}

proof fn later_piece(rest: Seq<u8>, k: int, room: int)
    requires
        room > 0,
        k >= 0,
        (k + 1) * room < rest.len(),
    ensures
        piece(rest, k + 1, room) == piece(rest.skip(room), k, room),
        room < rest.len(),
{
    assert((k + 1) * room == k * room + room && (k + 1 + 1) * room == (k + 1) * room + room && k
        * room >= 0) by (nonlinear_arith)
        requires
            room > 0,
            k >= 0,
    ;
    assert(piece(rest, k + 1, room) =~= piece(rest.skip(room), k, room));
}

proof fn gathered_is_carried(
    src: Pages,
    next: u32,
    payload_len: nat,
    got: Seq<u8>,
    hops: nat,
    r: Seq<u8>,
)
    requires
        480 <= src.header.usable(),
        got.len() < payload_len,
        gather(src, next, payload_len, got, hops) == Ok::<Seq<u8>, ErrorView>(r),
    ensures
        r.len() == payload_len,
        r.take(got.len() as int) == got,
        exists|pages: Seq<u32>| #[trigger]
            chain_carries(src, pages, r.skip(got.len() as int)) && pages[0] == next && pages.len()
                + hops <= src.header.page_count,
    decreases src.header.page_count - hops,
{
    let room = src.header.usable() - 4;
    let n = got.len() as int;
    let want = if payload_len - n < room {
        payload_len - n
    } else {
        room
    };
    let page = (src.read)(next)->Ok_0;
    let more = got + page.subrange(4, 4 + want);
    let after = be32(page, 0);
    assert(1 * room == room && 0 * room == 0) by (nonlinear_arith);
    if more.len() == payload_len {
        assert(gather(src, after, payload_len, more, hops + 1) == Ok::<Seq<u8>, ErrorView>(more));
        assert(r == more);
        let rest = r.skip(n);
        let pages = seq![next];
        first_piece(rest, room);
        assert(rest =~= page.subrange(4, 4 + want));
        assert(rest.take(want) =~= rest);
        assert(r.take(n) =~= got);
        assert(chain_carries(src, pages, rest));
    } else {
        gathered_is_carried(src, after, payload_len, more, hops + 1, r);
        let rest = r.skip(n);
        let tail = r.skip(more.len() as int);
        assert(tail =~= rest.skip(room));
        let later = choose|pages: Seq<u32>| #[trigger]
            chain_carries(src, pages, tail) && pages[0] == after && pages.len() + hops + 1
                <= src.header.page_count;
        let pages = seq![next] + later;
        assert(r.take(n) =~= got) by {
            assert forall|i: int| 0 <= i < n implies r[i] == got[i] by {
                assert(r.take(more.len() as int)[i] == more[i]);
            }
        }
        let m = later.len() as int;
        assert((m + 1) * room == m * room + room && (m - 1) * room == m * room - room)
            by (nonlinear_arith);
        assert forall|k: int| 0 <= k < pages.len() implies carries(
            src,
            #[trigger] pages[k],
            piece(rest, k, room),
        ) by {
            if k == 0 {
                first_piece(rest, room);
                assert(rest.take(room) =~= page.subrange(4, 4 + want)) by {
                    assert forall|i: int| 0 <= i < room implies rest[i] == page[4 + i] by {
                        assert(r.take(more.len() as int)[n + i] == more[n + i]);
                    }
                }
            } else {
                assert(pages[k] == later[k - 1]);
                assert((k - 1 + 1) * room < rest.len()) by (nonlinear_arith)
                    requires
                        k <= m,
                        (m - 1) * room < rest.len() - room,
                        room > 0,
                ;
                later_piece(rest, k - 1, room);
            }
        }
        assert(linked(src, pages)) by {
            assert forall|k: int| 0 <= k < pages.len() - 1 implies (#[trigger] (src.read)(
                pages[k],
            ) matches Ok(pg) && pg.len() >= 4 && be32(pg, 0) == pages[k + 1]) by {
                if k > 0 {
                    assert(pages[k] == later[k - 1]);
                    assert((src.read)(later[k - 1]) is Ok);
                    assert(pages[k + 1] == later[k]);
                }
            }
        }
        assert(chain_carries(src, pages, rest));
    }
}

proof fn carried_is_gathered(
    src: Pages,
    next: u32,
    payload_len: nat,
    got: Seq<u8>,
    hops: nat,
    r: Seq<u8>,
    pages: Seq<u32>,
)
    requires
        480 <= src.header.usable(),
        got.len() < payload_len,
        r.len() == payload_len,
        r.take(got.len() as int) == got,
        chain_carries(src, pages, r.skip(got.len() as int)),
        pages[0] == next,
        pages.len() + hops <= src.header.page_count,
    ensures
        gather(src, next, payload_len, got, hops) == Ok::<Seq<u8>, ErrorView>(r),
    decreases src.header.page_count - hops,
{
    let room = src.header.usable() - 4;
    let n = got.len() as int;
    let rest = r.skip(n);
    let want = if payload_len - n < room {
        payload_len - n
    } else {
        room
    };
    assert(carries(src, pages[0], piece(rest, 0, room)));
    first_piece(rest, room);
    let page = (src.read)(next)->Ok_0;
    let more = got + page.subrange(4, 4 + want);
    let after = be32(page, 0);
    assert(rest.take(want) =~= page.subrange(4, 4 + want));
    assert(more =~= r.take(n + want)) by {
        assert forall|i: int| 0 <= i < more.len() implies more[i] == r[i] by {
            if i < n {
                assert(r.take(n)[i] == got[i]);
            } else {
                assert(rest.take(want)[i - n] == page.subrange(4, 4 + want)[i - n]);
            }
        }
    }
    if more.len() == payload_len {
        assert(more =~= r);
        assert(gather(src, after, payload_len, more, hops + 1) == Ok::<Seq<u8>, ErrorView>(more));
    } else {
        let m = pages.len() as int;
        assert(m >= 2) by (nonlinear_arith)
            requires
                rest.len() <= m * room,
                rest.len() > room,
                room > 0,
        ;
        let later = pages.skip(1);
        let tail = r.skip(more.len() as int);
        assert(tail =~= rest.skip(room));
        assert((m - 1) * room == m * room - room && (m - 1 - 1) * room == (m - 1) * room - room)
            by (nonlinear_arith);
        assert forall|k: int| 0 <= k < later.len() implies carries(
            src,
            #[trigger] later[k],
            piece(tail, k, room),
        ) by {
            assert(later[k] == pages[k + 1]);
            assert((k + 1) * room < rest.len()) by (nonlinear_arith)
                requires
                    k + 1 <= m - 1,
                    (m - 1) * room < rest.len(),
                    room > 0,
            ;
            later_piece(rest, k, room);
        }
        assert((src.read)(pages[0]) is Ok);
        assert(later[0] == pages[1]);
        assert(linked(src, later)) by {
            assert forall|k: int| 0 <= k < later.len() - 1 implies (#[trigger] (src.read)(
                later[k],
            ) matches Ok(pg) && pg.len() >= 4 && be32(pg, 0) == later[k + 1]) by {
                assert(later[k] == pages[k + 1]);
                assert((src.read)(pages[k + 1]) is Ok);
                assert(later[k + 1] == pages[k + 2]);
            }
        }
        carried_is_gathered(src, after, payload_len, more, hops + 1, r, later);
    }
}

/// A payload that spills is read as the part that stays in the cell and what the overflow chain
/// that starts behind it carries; and every payload that is stored so is read.
pub proof fn spilled_payload_is_what_is_stored(src: Pages, body: Seq<u8>, len: nat, r: Seq<u8>)
    requires
        480 <= src.header.usable() <= 65536,
        len > src.header.usable() - 35,
    ensures
        ({
            let stays = local_len(src.header.usable(), len as int, src.header.usable() - 35);
            payload_from(src, body, len) == Ok::<Seq<u8>, ErrorView>(r) <==> {
                &&& r.len() == len
                &&& body.len() >= stays + 4
                &&& r.take(stays) == body.take(stays)
                &&& exists|pages: Seq<u32>| #[trigger]
                    chain_carries(src, pages, r.skip(stays)) && pages[0] == be32(body, stays)
                        && pages.len() <= src.header.page_count
            }
        }),
{
    let usable = src.header.usable();
    let stays = local_len(usable, len as int, usable - 35);
    what_stays_in_a_cell(usable, len as int, usable - 35);
    assert(max_local_table(usable) == usable - 35);
    assert((usable - 12) * 32 / 255 - 23 >= 0) by (nonlinear_arith)
        requires
            usable >= 480,
    ;
    let got = body.take(stays);
    if payload_from(src, body, len) == Ok::<Seq<u8>, ErrorView>(r) {
        gathered_is_carried(src, be32(body, stays), len, got, 0, r);
    }
    if r.len() == len && body.len() >= stays + 4 && r.take(stays) == got && exists|pages: Seq<u32>|
        #[trigger]
        chain_carries(src, pages, r.skip(stays)) && pages[0] == be32(body, stays) && pages.len()
            <= src.header.page_count {
        let pages = choose|pages: Seq<u32>| #[trigger]
            chain_carries(src, pages, r.skip(stays)) && pages[0] == be32(body, stays)
                && pages.len() <= src.header.page_count;
        carried_is_gathered(src, be32(body, stays), len, got, 0, r, pages);
    }
}

/// A payload that fits in its cell is read from there.
pub proof fn local_payload_is_what_is_stored(src: Pages, body: Seq<u8>, len: nat)
    requires
        480 <= src.header.usable() <= 65536,
        len <= src.header.usable() - 35,
    ensures
        payload_from(src, body, len) is Ok <==> body.len() >= len,
        payload_from(src, body, len) matches Ok(r) ==> r == body.take(len as int),
{
}

// ---------------------------------------------------------------------------------------
// The schema table
// ---------------------------------------------------------------------------------------
/// Page `q` is a child of the schema page `p`: the rightmost, or that of a cell.
pub open spec fn schema_child(src: Pages, p: u32, q: u32) -> bool {
    (src.read)(p) matches Ok(page) && page[header_at(p)] == 5 && {
        ||| q == be32(page, header_at(p) + 8)
        ||| exists|k: int|
            0 <= k < cell_count(p, page) && q == #[trigger] be32(page, cell_at(p, page, 12, k))
    }
}

/// The leaf cell at `off` of `page` holds the row of the object `o`.
pub open spec fn cell_describes(src: Pages, page: Seq<u8>, off: int, o: SchemaObjectView) -> bool {
    cell_payload(src, page.skip(off)) matches Ok(payload) && (record(payload) matches Ok(values)
        && describes(values, o))
}

/// The schema page `p` is a leaf, and one of its cells holds the row of the object `o`.
pub open spec fn schema_lists(src: Pages, p: u32, o: SchemaObjectView) -> bool {
    (src.read)(p) matches Ok(page) && page[header_at(p)] == 13 && exists|k: int|
        0 <= k < cell_count(p, page) && #[trigger] cell_describes(
            src,
            page,
            cell_at(p, page, 8, k),
            o,
        )
}

/// One of `pages` lists the object `o`.
pub open spec fn some_page_lists(src: Pages, pages: Seq<u32>, o: SchemaObjectView) -> bool {
    exists|i: int| 0 <= i < pages.len() && schema_lists(src, #[trigger] pages[i], o)
}

/// Page `k` of `pages` is one of `roots` or a child of an earlier one.
pub open spec fn comes_from(src: Pages, roots: Seq<u32>, pages: Seq<u32>, k: int) -> bool {
    roots.contains(pages[k]) || exists|j: int|
        0 <= j < k && schema_child(src, #[trigger] pages[j], pages[k])
}

/// `pages` are the pages of the table trees rooted at `roots`: the roots, and every child of one
/// of them, and no other page.
pub open spec fn table_pages(src: Pages, roots: Seq<u32>, pages: Seq<u32>) -> bool {
    &&& forall|q: u32| #[trigger] roots.contains(q) ==> pages.contains(q)
    &&& forall|p: u32, q: u32|
        pages.contains(p) && #[trigger] schema_child(src, p, q) ==> pages.contains(q)
    &&& forall|k: int|
        0 <= k < pages.len() ==> ((src.read)(#[trigger] pages[k]) matches Ok(page) && (
        page[header_at(pages[k])] == 5 || page[header_at(pages[k])] == 13))
    &&& forall|k: int| 0 <= k < pages.len() ==> #[trigger] comes_from(src, roots, pages, k)
}

proof fn interior_cells(src: Pages, p: u32, page: Seq<u8>, i: nat, count: nat, st: Scan)
    requires
        page[header_at(p)] == 5,
        scan_cells(src, p, page, i, count, st) is Ok,
        i <= count,
    ensures
        ({
            let next = scan_cells(src, p, page, i, count, st)->Ok_0;
            &&& next.objects == st.objects
            &&& next.stack == st.stack + Seq::new(
                (count - i) as nat,
                |k: int| be32(page, cell_at(p, page, 12, i + k)),
            )
        }),
    decreases count - i,
{
    let new = Seq::new((count - i) as nat, |k: int| be32(page, cell_at(p, page, 12, i + k)));
    if i < count {
        let next = scan_cell(src, p, page, i, st)->Ok_0;
        let off = cell_at(p, page, 12, i as int);
        assert(be32(page.skip(off), 0) == be32(page, off));
        interior_cells(src, p, page, i + 1, count, next);
        let rest = Seq::new(
            (count - i - 1) as nat,
            |k: int| be32(page, cell_at(p, page, 12, i + 1 + k)),
        );
        assert(st.stack.push(be32(page, off)) + rest =~= st.stack + new);
    } else {
        assert(st.stack + new =~= st.stack);
    }
}

proof fn leaf_cells(
    src: Pages,
    p: u32,
    page: Seq<u8>,
    i: nat,
    count: nat,
    st: Scan,
    o: SchemaObjectView,
)
    requires
        page[header_at(p)] == 13,
        scan_cells(src, p, page, i, count, st) is Ok,
        i <= count,
    ensures
        ({
            let next = scan_cells(src, p, page, i, count, st)->Ok_0;
            &&& next.stack == st.stack
            &&& next.objects.contains(o) <==> st.objects.contains(o) || exists|k: int|
                i <= k < count && #[trigger] cell_describes(src, page, cell_at(p, page, 8, k), o)
        }),
    decreases count - i,
{
    if i < count {
        let next = scan_cell(src, p, page, i, st)->Ok_0;
        let off = cell_at(p, page, 8, i as int);
        let payload = cell_payload(src, page.skip(off))->Ok_0;
        let values = record(payload)->Ok_0;
        row_stands_for_its_object(values, o);
        leaf_cells(src, p, page, i + 1, count, next, o);
        assert(next.objects.contains(o) <==> st.objects.contains(o) || cell_describes(
            src,
            page,
            off,
            o,
        )) by {
            match schema_row(values)->Ok_0 {
                None => {},
                Some(new) => {
                    assert(next.objects == st.objects.push(new));
                    if st.objects.contains(o) {
                        let k = choose|k: int| 0 <= k < st.objects.len() && st.objects[k] == o;
                        assert(next.objects[k] == o);
                    }
                    if new == o {
                        assert(next.objects[st.objects.len() as int] == o);
                    }
                },
            }
        }
        let all = scan_cells(src, p, page, i, count, st)->Ok_0;
        if exists|k: int|
            i <= k < count && #[trigger] cell_describes(src, page, cell_at(p, page, 8, k), o) {
            let k = choose|k: int|
                i <= k < count && #[trigger] cell_describes(src, page, cell_at(p, page, 8, k), o);
            if k > i {
                assert(i + 1 <= k);
            }
        }
    }
}

proof fn page_scanned(src: Pages, p: u32, page: Seq<u8>, st: Scan, next: Scan)
    requires
        (src.read)(p) == Ok::<Seq<u8>, ErrorView>(page),
        scan_page(src, p, page, st) == Ok::<Scan, ErrorView>(next),
    ensures
        page[header_at(p)] == 5 || page[header_at(p)] == 13,
        forall|q: u32| #[trigger]
            next.stack.contains(q) <==> st.stack.contains(q) || schema_child(src, p, q),
        forall|o: SchemaObjectView| #[trigger]
            next.objects.contains(o) <==> st.objects.contains(o) || schema_lists(src, p, o),
{
    let n = cell_count(p, page);
    let right = be32(page, header_at(p) + 8);
    if page[header_at(p)] == 5 {
        let first = Scan { stack: st.stack.push(right), ..st };
        interior_cells(src, p, page, 0, n, first);
        let new = Seq::new(n, |k: int| be32(page, cell_at(p, page, 12, 0 + k)));
        assert(next.stack == st.stack.push(right) + new);
        assert forall|q: u32| #[trigger]
            next.stack.contains(q) <==> st.stack.contains(q) || schema_child(src, p, q) by {
            let len = st.stack.len() as int;
            if next.stack.contains(q) {
                let k = choose|k: int| 0 <= k < next.stack.len() && next.stack[k] == q;
                if k < len {
                    assert(st.stack[k] == q);
                } else if k > len {
                    assert(new[k - len - 1] == q);
                    assert(q == be32(page, cell_at(p, page, 12, k - len - 1)));
                }
            }
            if st.stack.contains(q) {
                let k = choose|k: int| 0 <= k < len && st.stack[k] == q;
                assert(next.stack[k] == q);
            }
            if schema_child(src, p, q) {
                if q == right {
                    assert(next.stack[len] == q);
                } else {
                    let k = choose|k: int|
                        0 <= k < n && q == #[trigger] be32(page, cell_at(p, page, 12, k));
                    assert(new[k] == q);
                    assert(next.stack[len + 1 + k] == q);
                }
            }
        }
    } else {
        assert forall|o: SchemaObjectView| #[trigger]
            next.objects.contains(o) <==> st.objects.contains(o) || schema_lists(src, p, o) by {
            leaf_cells(src, p, page, 0, n, st, o);
        }
        leaf_cells(src, p, page, 0, n, st, arbitrary());
    }
}

proof fn scan_reads_the_tree(src: Pages, st: Scan, r: Seq<SchemaObjectView>)
    requires
        scan_on(src, st) == Ok::<Seq<SchemaObjectView>, ErrorView>(r),
    ensures
        exists|pages: Seq<u32>| #[trigger]
            table_pages(src, st.stack, pages) && forall|o: SchemaObjectView| #[trigger]
            r.contains(o) <==> st.objects.contains(o) || some_page_lists(src, pages, o),
    decreases src.header.page_count - st.visits,
{
    if st.stack.len() == 0 {
        let none = Seq::<u32>::empty();
        assert(table_pages(src, st.stack, none));
    } else {
        let p = st.stack.last();
        let page = (src.read)(p)->Ok_0;
        let entered = Scan { stack: st.stack.drop_last(), visits: st.visits + 1, ..st };
        let next = scan_page(src, p, page, entered)->Ok_0;
        scan_page_visits(src, p, page, entered);
        page_scanned(src, p, page, entered, next);
        scan_reads_the_tree(src, next, r);
        let later = choose|pages: Seq<u32>| #[trigger]
            table_pages(src, next.stack, pages) && forall|o: SchemaObjectView| #[trigger]
            r.contains(o) <==> next.objects.contains(o) || some_page_lists(src, pages, o);
        let pages = seq![p] + later;
        assert forall|q: u32| #[trigger] pages.contains(q) <==> q == p || later.contains(q) by {
            if pages.contains(q) {
                let k = choose|k: int| 0 <= k < pages.len() && pages[k] == q;
                if k > 0 {
                    assert(later[k - 1] == q);
                }
            }
            if q == p {
                assert(pages[0] == q);
            }
            if later.contains(q) {
                let k = choose|k: int| 0 <= k < later.len() && later[k] == q;
                assert(pages[k + 1] == q);
            }
        }
        assert forall|q: u32| #[trigger] st.stack.contains(q) implies pages.contains(q) by {
            let k = choose|k: int| 0 <= k < st.stack.len() && st.stack[k] == q;
            if k < st.stack.len() - 1 {
                assert(entered.stack[k] == q);
                assert(next.stack.contains(q));
            }
        }
        assert forall|a: u32, q: u32| pages.contains(a) && #[trigger] schema_child(
            src,
            a,
            q,
        ) implies pages.contains(q) by {
            if a == p {
                assert(next.stack.contains(q));
            }
        }
        assert forall|k: int| 0 <= k < pages.len() implies ((src.read)(
            #[trigger] pages[k],
        ) matches Ok(pg) && (pg[header_at(pages[k])] == 5 || pg[header_at(pages[k])] == 13)) by {
            if k > 0 {
                assert(pages[k] == later[k - 1]);
            }
        }
        assert forall|k: int| 0 <= k < pages.len() implies #[trigger] comes_from(
            src,
            st.stack,
            pages,
            k,
        ) by {
            if k == 0 {
                assert(st.stack[st.stack.len() - 1] == p);
            } else {
                assert(pages[k] == later[k - 1]);
                assert(comes_from(src, next.stack, later, k - 1));
                if next.stack.contains(pages[k]) {
                    if entered.stack.contains(pages[k]) {
                        let j = choose|j: int|
                            0 <= j < entered.stack.len() && entered.stack[j] == pages[k];
                        assert(st.stack[j] == pages[k]);
                    } else {
                        assert(schema_child(src, pages[0], pages[k]));
                    }
                } else {
                    let j = choose|j: int|
                        0 <= j < k - 1 && schema_child(src, #[trigger] later[j], later[k - 1]);
                    assert(pages[j + 1] == later[j]);
                    assert(schema_child(src, pages[j + 1], pages[k]));
                }
            }
        }
        assert(table_pages(src, st.stack, pages));
        assert forall|o: SchemaObjectView| #[trigger]
            r.contains(o) <==> st.objects.contains(o) || some_page_lists(src, pages, o) by {
            assert(r.contains(o) <==> next.objects.contains(o) || some_page_lists(src, later, o));
            assert(next.objects.contains(o) <==> st.objects.contains(o) || schema_lists(
                src,
                p,
                o,
            ));
            if some_page_lists(src, later, o) {
                let k = choose|k: int|
                    0 <= k < later.len() && schema_lists(src, #[trigger] later[k], o);
                assert(schema_lists(src, pages[k + 1], o));
            }
            if schema_lists(src, p, o) {
                assert(schema_lists(src, pages[0], o));
            }
            if some_page_lists(src, pages, o) {
                let k = choose|k: int|
                    0 <= k < pages.len() && schema_lists(src, #[trigger] pages[k], o);
                if k > 0 {
                    assert(schema_lists(src, later[k - 1], o));
                }
            }
        }
    }
}

/// The schema lists exactly the objects whose rows lie on the leaves of the table tree that is
/// rooted at page 1, whichever child of an interior page leads there.
pub proof fn schema_lists_every_row(src: Pages, objects: Seq<SchemaObjectView>)
    requires
        schema(src) == Ok::<Seq<SchemaObjectView>, ErrorView>(objects),
    ensures
        src.header.text_encoding == 1,
        exists|pages: Seq<u32>| #[trigger]
            table_pages(src, seq![1u32], pages) && forall|o: SchemaObjectView| #[trigger]
            objects.contains(o) <==> some_page_lists(src, pages, o),
{
    broadcast use vstd::seq_lib::group_to_multiset_ensures;

    let start = Scan { stack: seq![1u32], objects: Seq::empty(), visits: 0 };
    let found = scan_on(src, start)->Ok_0;
    scan_reads_the_tree(src, start, found);
    assert(preorder(object_le())) by {
        assert forall|a: SchemaObjectView, b: SchemaObjectView| #[trigger]
            object_le()(a, b) || #[trigger] object_le()(b, a) by {
            name_le_total(a.name, b.name);
        }
        assert forall|a: SchemaObjectView, b: SchemaObjectView, c: SchemaObjectView| #[trigger]
            object_le()(a, b) && #[trigger] object_le()(b, c) implies object_le()(a, c) by {
            name_le_transitive(a.name, b.name, c.name);
        }
    }
    stable_sort_facts(found, object_le());
    let pages = choose|pages: Seq<u32>| #[trigger]
        table_pages(src, seq![1u32], pages) && forall|o: SchemaObjectView| #[trigger]
        found.contains(o) <==> start.objects.contains(o) || some_page_lists(src, pages, o);
    assert forall|o: SchemaObjectView| #[trigger]
        objects.contains(o) <==> some_page_lists(src, pages, o) by {
        assert(objects.contains(o) <==> objects.to_multiset().count(o) > 0);
        assert(found.contains(o) <==> found.to_multiset().count(o) > 0);
        assert(found.contains(o) <==> start.objects.contains(o) || some_page_lists(src, pages, o));
    }
}

// ---------------------------------------------------------------------------------------
// The schema can be read
// ---------------------------------------------------------------------------------------
/// The leaf cell at `off` of `page` holds a row of the schema that can be read.
pub open spec fn row_in_order(src: Pages, page: Seq<u8>, off: int) -> bool {
    cell_payload(src, page.skip(off)) matches Ok(payload) && (record(payload) matches Ok(values)
        && schema_row(values) is Ok)
}

/// Page `p` is a page of a table, and if it is a leaf, all its rows are rows of a schema.
pub open spec fn rows_in_order(src: Pages, p: u32) -> bool {
    (src.read)(p) matches Ok(page) && {
        ||| page[header_at(p)] == 5
        ||| page[header_at(p)] == 13 && forall|k: nat|
            k < cell_count(p, page) ==> #[trigger] row_in_order(
                src,
                page,
                cell_at(p, page, 8, k as int),
            )
    }
}

proof fn follow_is_faultless(src: Pages, links: Seq<Link>, w: Walk)
    ensures
        follow(src, links, w) matches Ok(u) ==> faultless(links) && u.stack == w.stack
            + child_pages(links),
    decreases links.len(),
{
    if links.len() == 0 {
        assert(w.stack + child_pages(links) =~= w.stack);
    } else {
        let first = links.first();
        let rest = links.drop_first();
        assert(links =~= seq![first] + rest);
        child_pages_concat(seq![first], rest);
        child_pages_of_one(seq![first]);
        match first {
            Link::Fault(_) => {},
            Link::Child(p) => {
                let next = Walk { stack: w.stack.push(p), ..w };
                follow_is_faultless(src, rest, next);
                if let Ok(u) = follow(src, links, w) {
                    assert(w.stack.push(p) + child_pages(rest) =~= w.stack + child_pages(links));
                }
            },
            Link::Chain { first: at, rest: len } => {
                if let Ok(t) = chain(src, at, len, Trail { seen: w.seen, pages: w.overflow }) {
                    let next = Walk { seen: t.seen, overflow: t.pages, ..w };
                    follow_is_faultless(src, rest, next);
                    assert(child_pages(links) =~= child_pages(rest));
                }
            },
        }
        if follow(src, links, w) is Ok {
            assert forall|i: int| 0 <= i < links.len() implies !(
            #[trigger] links[i] is Fault) by {
                if i > 0 {
                    assert(rest[i - 1] == links[i]);
                }
            }
        }
    }
}

proof fn interior_cells_are_read(src: Pages, p: u32, page: Seq<u8>, i: nat, count: nat, st: Scan)
    requires
        page[header_at(p)] == 5,
        forall|k: nat| k < count ==> #[trigger] cell_in_order(p, page, k, src.header.usable()),
    ensures
        scan_cells(src, p, page, i, count, st) is Ok,
    decreases count - i,
{
    if i < count {
        assert(cell_in_order(p, page, i, src.header.usable()));
        let next = scan_cell(src, p, page, i, st)->Ok_0;
        interior_cells_are_read(src, p, page, i + 1, count, next);
    }
}

proof fn leaf_cells_are_read(src: Pages, p: u32, page: Seq<u8>, i: nat, count: nat, st: Scan)
    requires
        page[header_at(p)] == 13,
        forall|k: nat| k < count ==> #[trigger] cell_in_order(p, page, k, src.header.usable()),
        forall|k: nat|
            k < count ==> #[trigger] row_in_order(src, page, cell_at(p, page, 8, k as int)),
    ensures
        scan_cells(src, p, page, i, count, st) is Ok,
    decreases count - i,
{
    if i < count {
        assert(cell_in_order(p, page, i, src.header.usable()));
        assert(row_in_order(src, page, cell_at(p, page, 8, i as int)));
        let next = scan_cell(src, p, page, i, st)->Ok_0;
        leaf_cells_are_read(src, p, page, i + 1, count, next);
    }
}

proof fn page_is_read(src: Pages, p: u32, page: Seq<u8>, st: Scan)
    requires
        480 <= src.header.usable() <= 65536,
        (src.read)(p) == Ok::<Seq<u8>, ErrorView>(page),
        faultless(page_links(p, page, src.header.usable())),
        rows_in_order(src, p),
    ensures
        scan_page(src, p, page, st) matches Ok(next) && next.stack == st.stack + child_pages(
            page_links(p, page, src.header.usable()),
        ),
{
    let usable = src.header.usable();
    let n = cell_count(p, page);
    page_is_in_order_iff_it_fits(p, page, usable);
    if page[header_at(p)] == 5 {
        let right = be32(page, header_at(p) + 8);
        let first = Scan { stack: st.stack.push(right), ..st };
        interior_page_has_every_child(p, page, usable);
        interior_cells_are_read(src, p, page, 0, n, first);
        interior_cells(src, p, page, 0, n, first);
        let next = scan_page(src, p, page, st)->Ok_0;
        assert(next.stack =~= st.stack + child_pages(page_links(p, page, usable)));
    } else {
        leaf_page_has_no_child(p, page, usable);
        leaf_cells_are_read(src, p, page, 0, n, st);
        leaf_cells(src, p, page, 0, n, st, arbitrary());
        assert(st.stack + child_pages(page_links(p, page, usable)) =~= st.stack);
    }
}

proof fn walk_keeps_pages(src: Pages, w: Walk, u: Walk, q: u32)
    requires
        walk_on(src, w) == Ok::<Walk, ErrorView>(u),
        w.btree.contains(q),
    ensures
        u.btree.contains(q),
    decreases unseen(w.seen),
{
    if w.stack.len() > 0 {
        let p = w.stack.last();
        let page = (src.read)(p)->Ok_0;
        let links = page_links(p, page, src.header.usable());
        let e = enter(w, p);
        unseen_update(w.seen, p - 1);
        follow_meets(src, links, e);
        follow_keeps_btree(src, links, e);
        let k = choose|k: int| 0 <= k < w.btree.len() && w.btree[k] == q;
        assert(e.btree[k] == q);
        walk_keeps_pages(src, follow(src, links, e)->Ok_0, u, q);
    }
}

proof fn scan_follows_the_walk(src: Pages, w: Walk, u: Walk, st: Scan)
    requires
        480 <= src.header.usable() <= 65536,
        walk_on(src, w) == Ok::<Walk, ErrorView>(u),
        w.stack == st.stack,
        st.visits + unseen(w.seen) <= src.header.page_count,
        forall|p: u32| #[trigger] u.btree.contains(p) ==> rows_in_order(src, p),
    ensures
        scan_on(src, st) is Ok,
    decreases unseen(w.seen),
{
    if w.stack.len() > 0 {
        let p = w.stack.last();
        let page = (src.read)(p)->Ok_0;
        let links = page_links(p, page, src.header.usable());
        let e = enter(w, p);
        let next = follow(src, links, e)->Ok_0;
        unseen_update(w.seen, p - 1);
        follow_meets(src, links, e);
        follow_is_faultless(src, links, e);
        follow_keeps_btree(src, links, e);
        assert(e.btree[w.btree.len() as int] == p);
        assert(next.btree.contains(p));
        walk_keeps_pages(src, next, u, p);
        let entered = Scan { stack: st.stack.drop_last(), visits: st.visits + 1, ..st };
        page_is_read(src, p, page, entered);
        scan_page_visits(src, p, page, entered);
        scan_follows_the_walk(src, next, u, scan_page(src, p, page, entered)->Ok_0);
    }
}

/// The schema of a database in UTF-8 can be read where the tree rooted at page 1 can be walked, it
/// is a table, and its rows are rows of a schema.
pub proof fn schema_in_order_is_read(src: Pages, pages: BtreePagesView)
    requires
        480 <= src.header.usable() <= 65536,
        src.header.text_encoding == 1,
        walk(src, 1) == Ok::<BtreePagesView, ErrorView>(pages),
        forall|p: u32| #[trigger] pages.btree.contains(p) ==> rows_in_order(src, p),
    ensures
        schema(src) is Ok,
{
    let w = walk_start(src, 1);
    let u = walk_on(src, w)->Ok_0;
    ascending_facts(u.btree);
    unseen_at_first(w.seen);
    assert forall|p: u32| #[trigger] u.btree.contains(p) implies rows_in_order(src, p) by {
        assert(pages.btree.contains(p));
    }
    let st = Scan { stack: seq![1u32], objects: Seq::empty(), visits: 0 };
    scan_follows_the_walk(src, w, u, st);
}

} // verus!
