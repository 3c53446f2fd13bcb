//! Whole databases, built byte by byte with known page ownership: the walker, the
//! attribution of pages, and every command on them.

use std::collections::BTreeMap;
use std::collections::VecDeque;

use litegraft::btree::attribute_pages;
use litegraft::btree::freelist_pages;
use litegraft::btree::lock_byte_page;
use litegraft::btree::ptrmap_pages;
use litegraft::btree::read_schema;
use litegraft::btree::walk_btree;
use litegraft::btree::PageKind;
use litegraft::cli::parse_args;
use litegraft::cli::Working;
use litegraft::commands::branches::cmd_branch;
use litegraft::commands::branches::cmd_checkout;
use litegraft::commands::branches::cmd_status;
use litegraft::commands::compare::cmd_diff;
use litegraft::commands::compare::cmd_tables_ref;
use litegraft::commands::compare::cmd_tables_working;
use litegraft::commands::compare::tables_wants_working;
use litegraft::commands::snaps::cmd_init;
use litegraft::commands::snaps::cmd_log;
use litegraft::commands::snaps::cmd_snap;
use litegraft::commands::snaps::snap_report;
use litegraft::commands::upkeep::cmd_gc;
use litegraft::commands::upkeep::cmd_verify;
use litegraft::dbfile::DbFile;
use litegraft::dbfile::PageSource;
use litegraft::error::Error;
use litegraft::record::write_varint;
use litegraft::snapshot::restore;
use litegraft::snapshot::snap;
use litegraft::snapshot::state_of_file;
use litegraft::snapshot::Sidecars;
use litegraft::snapshot::SnapshotSource;
use litegraft::store::Head;
use litegraft::store::Store;

const PAGE_SIZE: usize = 512;

// ---- record encoding ---------------------------------------------------------

/// Test-side value for record encoding.
#[derive(Clone)]
enum V {
    Null,
    I(i64),
    T(String),
    B(Vec<u8>),
}

fn t(s: &str) -> V {
    V::T(s.to_string())
}

fn int_serial(v: i64) -> (u64, Vec<u8>) {
    if v == 0 {
        return (8, vec![]);
    }
    if v == 1 {
        return (9, vec![]);
    }
    if (-128..=127).contains(&v) {
        return (1, vec![v as u8]);
    }
    if (-32768..=32767).contains(&v) {
        return (2, (v as i16).to_be_bytes().to_vec());
    }
    if (i32::MIN as i64..=i32::MAX as i64).contains(&v) {
        return (4, (v as i32).to_be_bytes().to_vec());
    }
    (6, v.to_be_bytes().to_vec())
}

/// Encode a record (header of serial types + body) per the file format.
fn encode_record(values: &[V]) -> Vec<u8> {
    let mut serials = Vec::new();
    let mut body = Vec::new();
    for v in values {
        match v {
            V::Null => serials.push(write_varint(0)),
            V::I(i) => {
                let (s, bytes) = int_serial(*i);
                serials.push(write_varint(s));
                body.extend_from_slice(&bytes);
            }
            V::T(s) => {
                serials.push(write_varint(13 + 2 * s.len() as u64));
                body.extend_from_slice(s.as_bytes());
            }
            V::B(b) => {
                serials.push(write_varint(12 + 2 * b.len() as u64));
                body.extend_from_slice(b);
            }
        }
    }
    let serials_len: usize = serials.iter().map(Vec::len).sum();
    // Header length varint counts itself; one byte is always enough here.
    let header_len = serials_len + 1;
    assert!(
        header_len <= 127,
        "test records keep a 1-byte header length"
    );
    let mut out = Vec::with_capacity(header_len + body.len());
    out.push(header_len as u8);
    for s in serials {
        out.extend_from_slice(&s);
    }
    out.extend_from_slice(&body);
    out
}

// ---- database building -------------------------------------------------------

/// One schema object to place in the file.
struct Obj {
    otype: &'static str, // "table" | "index"
    name: String,
    tbl_name: String,
    sql: String,
    /// For tables: (rowid, record payload). For indexes: rowid is ignored
    /// and the payload is the index key record.
    rows: Vec<(i64, Vec<u8>)>,
}

impl Obj {
    fn table(name: &str, columns_sql: &str, rows: Vec<(i64, Vec<u8>)>) -> Obj {
        Obj {
            otype: "table",
            name: name.to_string(),
            tbl_name: name.to_string(),
            sql: format!("CREATE TABLE {name}({columns_sql})"),
            rows,
        }
    }
    fn index(name: &str, tbl: &str, expr: &str, rows: Vec<(i64, Vec<u8>)>) -> Obj {
        Obj {
            otype: "index",
            name: name.to_string(),
            tbl_name: tbl.to_string(),
            sql: format!("CREATE INDEX {name} ON {tbl}({expr})"),
            rows,
        }
    }
}

/// Where each object's pages ended up (what attribution is held against).
#[derive(Debug, Default)]
struct Layout {
    roots: BTreeMap<String, u32>,
    btree_pages: BTreeMap<String, Vec<u32>>,
    overflow_pages: BTreeMap<String, Vec<u32>>,
    freelist_pages: Vec<u32>,
    page_count: u32,
}

const USABLE: usize = PAGE_SIZE; // reserved bytes = 0 in built files

fn max_local_table() -> usize {
    USABLE - 35
}

fn min_local() -> usize {
    (USABLE - 12) * 32 / 255 - 23
}

fn local_len(payload: usize, x: usize) -> usize {
    if payload <= x {
        return payload;
    }
    let m = min_local();
    let k = m + (payload - m) % (USABLE - 4);
    if k <= x {
        k
    } else {
        m
    }
}

/// A not-yet-numbered page under construction.
enum Page {
    TableLeaf {
        cells: Vec<(i64, Vec<u8>)>,
    },
    IndexLeaf {
        cells: Vec<Vec<u8>>,
    },
    TableInterior {
        children: Vec<(usize, i64)>,
        rightmost: usize,
    }, // local leaf indices
    Overflow {
        data: Vec<u8>,
        next: Option<usize>,
    }, // local indices
}

/// Serialized table-leaf cell for a payload, splitting overflow chunks.
fn table_leaf_cell(rowid: i64, payload: &[u8], first_overflow: Option<u32>) -> Vec<u8> {
    let local = local_len(payload.len(), max_local_table());
    let mut cell = write_varint(payload.len() as u64);
    cell.extend_from_slice(&write_varint(rowid as u64));
    cell.extend_from_slice(&payload[..local]);
    if local < payload.len() {
        cell.extend_from_slice(
            &first_overflow
                .expect("spilled cell needs an overflow page")
                .to_be_bytes(),
        );
    }
    cell
}

fn index_leaf_cell(payload: &[u8]) -> Vec<u8> {
    assert!(
        payload.len() <= (USABLE - 12) * 64 / 255 - 23,
        "test index payloads stay local"
    );
    let mut cell = write_varint(payload.len() as u64);
    cell.extend_from_slice(payload);
    cell
}

/// Size a table-leaf cell will occupy on the page.
fn table_leaf_cell_len(rowid: i64, payload_len: usize) -> usize {
    let local = local_len(payload_len, max_local_table());
    let spill = if local < payload_len { 4 } else { 0 };
    write_varint(payload_len as u64).len() + write_varint(rowid as u64).len() + local + spill
}

/// Build one object's pages. Returns (plans, root_local_idx).
/// Local page order: leaves, then overflow pages, then interior root (if any).
fn plan_object(obj: &Obj) -> (Vec<Page>, usize) {
    let header = |leaf: bool| if leaf { 8 } else { 12 };
    let mut plans: Vec<Page> = Vec::new();

    if obj.otype == "index" {
        // Tests keep indexes single-leaf; assert it fits.
        let mut used = header(true);
        let mut cells = Vec::new();
        for (_, payload) in &obj.rows {
            let cell = index_leaf_cell(payload);
            used += cell.len() + 2;
            assert!(used <= USABLE, "test index overflows one page; shrink it");
            cells.push(payload.clone());
        }
        plans.push(Page::IndexLeaf { cells });
        return (plans, 0);
    }

    // Distribute table rows over leaves.
    let mut leaves: Vec<Vec<(i64, Vec<u8>)>> = vec![Vec::new()];
    let mut free = USABLE - header(true);
    for (rowid, payload) in &obj.rows {
        let need = table_leaf_cell_len(*rowid, payload.len()) + 2;
        if need > free && !leaves.last().unwrap().is_empty() {
            leaves.push(Vec::new());
            free = USABLE - header(true);
        }
        assert!(
            need <= USABLE - header(true),
            "single cell larger than a page"
        );
        leaves.last_mut().unwrap().push((*rowid, payload.clone()));
        free -= need;
    }
    let nleaves = leaves.len();
    let mut max_rowids = Vec::with_capacity(nleaves);
    for leaf in &leaves {
        max_rowids.push(leaf.iter().map(|(r, _)| *r).max().unwrap_or(0));
        plans.push(Page::TableLeaf {
            cells: leaf.clone(),
        });
    }
    // Overflow chains: planned after leaves; leaf serialization later needs
    // their local indices, which we can compute deterministically here.
    let mut overflow_planned = 0usize;
    for leaf in &leaves {
        for (_, payload) in leaf {
            let local = local_len(payload.len(), max_local_table());
            if local < payload.len() {
                let mut rest = &payload[local..];
                let mut chunk_indices = Vec::new();
                while !rest.is_empty() {
                    let take = rest.len().min(USABLE - 4);
                    chunk_indices.push(nleaves + overflow_planned);
                    overflow_planned += 1;
                    plans.push(Page::Overflow {
                        data: rest[..take].to_vec(),
                        next: None,
                    });
                    rest = &rest[take..];
                }
                // Link the chain.
                for w in chunk_indices.windows(2) {
                    if let Page::Overflow { next, .. } = &mut plans[w[0]] {
                        *next = Some(w[1]);
                    }
                }
            }
        }
    }
    if nleaves == 1 {
        (plans, 0)
    } else {
        let children: Vec<(usize, i64)> = (0..nleaves - 1).map(|i| (i, max_rowids[i])).collect();
        let root = plans.len();
        plans.push(Page::TableInterior {
            children,
            rightmost: nleaves - 1,
        });
        (plans, root)
    }
}

/// Pack cells into a serialized b-tree page.
fn serialize_btree_page(
    pgno: u32,
    ptype: u8,
    rightmost: Option<u32>,
    cells: &[Vec<u8>],
) -> Vec<u8> {
    let hoff = if pgno == 1 { 100 } else { 0 };
    let header_len = if rightmost.is_some() { 12 } else { 8 };
    let mut page = vec![0u8; PAGE_SIZE];
    page[hoff] = ptype;
    page[hoff + 3..hoff + 5].copy_from_slice(&(cells.len() as u16).to_be_bytes());
    if let Some(r) = rightmost {
        page[hoff + 8..hoff + 12].copy_from_slice(&r.to_be_bytes());
    }
    let mut content_end = PAGE_SIZE;
    for (i, cell) in cells.iter().enumerate() {
        content_end -= cell.len();
        page[content_end..content_end + cell.len()].copy_from_slice(cell);
        let po = hoff + header_len + 2 * i;
        page[po..po + 2].copy_from_slice(&(content_end as u16).to_be_bytes());
    }
    let ptr_end = hoff + header_len + 2 * cells.len();
    assert!(ptr_end <= content_end, "page {pgno} overpacked");
    page[hoff + 5..hoff + 7].copy_from_slice(&(content_end as u16).to_be_bytes());
    page
}

struct Placed<'a> {
    obj: &'a Obj,
    plans: Vec<Page>,
    base: u32, // global pgno of local index 0
    root: u32,
}

/// Build a complete database file, returning its bytes and the layout.
fn build_db(objects: &[Obj], freelist_leaves: usize) -> (Vec<u8>, Layout) {
    let mut layout = Layout::default();

    // Plan every object and assign global page numbers. Page 1 = schema.
    let mut placed: Vec<Placed> = Vec::new();
    let mut next_page = 2u32;
    for obj in objects {
        let (plans, root_idx) = plan_object(obj);
        let base = next_page;
        next_page += plans.len() as u32;
        placed.push(Placed {
            obj,
            plans,
            base,
            root: base + root_idx as u32,
        });
    }
    // Freelist: one trunk + N leaves at the end of the file.
    let (freelist_head, freelist_count) = if freelist_leaves > 0 {
        let trunk = next_page;
        next_page += 1 + freelist_leaves as u32;
        (trunk, 1 + freelist_leaves as u32)
    } else {
        (0, 0)
    };
    let page_count = next_page - 1;

    // Serialize object pages.
    let mut pages: Vec<Vec<u8>> = vec![Vec::new(); page_count as usize]; // index 0 = page 1
    for p in &placed {
        let global = |local: usize| p.base + local as u32;
        // Overflow chain heads per leaf cell, in row order.
        let mut overflow_heads: VecDeque<u32> = VecDeque::new();
        for (i, plan) in p.plans.iter().enumerate() {
            if let Page::Overflow { data: _, next: _ } = plan {
                // Chain heads are the overflow plans not pointed to by another.
                let is_head = !p
                    .plans
                    .iter()
                    .any(|q| matches!(q, Page::Overflow { next: Some(nx), .. } if *nx == i));
                if is_head {
                    overflow_heads.push_back(global(i));
                }
            }
        }
        for (i, plan) in p.plans.iter().enumerate() {
            let pgno = global(i);
            let bytes = match plan {
                Page::TableLeaf { cells } => {
                    let mut encoded = Vec::new();
                    for (rowid, payload) in cells {
                        let spills = local_len(payload.len(), max_local_table()) < payload.len();
                        let head = if spills {
                            Some(overflow_heads.pop_front().expect("chain head"))
                        } else {
                            None
                        };
                        encoded.push(table_leaf_cell(*rowid, payload, head));
                    }
                    serialize_btree_page(pgno, 13, None, &encoded)
                }
                Page::IndexLeaf { cells } => {
                    let encoded: Vec<Vec<u8>> = cells.iter().map(|c| index_leaf_cell(c)).collect();
                    serialize_btree_page(pgno, 10, None, &encoded)
                }
                Page::TableInterior {
                    children,
                    rightmost,
                } => {
                    let encoded: Vec<Vec<u8>> = children
                        .iter()
                        .map(|(child, maxrow)| {
                            let mut cell = global(*child).to_be_bytes().to_vec();
                            cell.extend_from_slice(&write_varint(*maxrow as u64));
                            cell
                        })
                        .collect();
                    serialize_btree_page(pgno, 5, Some(global(*rightmost)), &encoded)
                }
                Page::Overflow { data, next } => {
                    let mut page = vec![0u8; PAGE_SIZE];
                    let next_pgno = next.map(&global).unwrap_or(0);
                    page[0..4].copy_from_slice(&next_pgno.to_be_bytes());
                    page[4..4 + data.len()].copy_from_slice(data);
                    page
                }
            };
            pages[pgno as usize - 1] = bytes;
            match plan {
                Page::Overflow { .. } => layout
                    .overflow_pages
                    .entry(p.obj.name.clone())
                    .or_default()
                    .push(pgno),
                _ => layout
                    .btree_pages
                    .entry(p.obj.name.clone())
                    .or_default()
                    .push(pgno),
            }
        }
        layout.roots.insert(p.obj.name.clone(), p.root);
    }

    // Schema page (page 1): one cell per object, rowids 1..N.
    let schema_cells: Vec<Vec<u8>> = placed
        .iter()
        .enumerate()
        .map(|(i, p)| {
            let record = encode_record(&[
                t(p.obj.otype),
                t(&p.obj.name),
                t(&p.obj.tbl_name),
                V::I(p.root as i64),
                t(&p.obj.sql),
            ]);
            table_leaf_cell((i + 1) as i64, &record, None)
        })
        .collect();
    let mut page1 = serialize_btree_page(1, 13, None, &schema_cells);

    // Freelist pages.
    if freelist_head != 0 {
        let mut trunk = vec![0u8; PAGE_SIZE];
        trunk[0..4].copy_from_slice(&0u32.to_be_bytes());
        trunk[4..8].copy_from_slice(&(freelist_leaves as u32).to_be_bytes());
        layout.freelist_pages.push(freelist_head);
        for i in 0..freelist_leaves {
            let leaf = freelist_head + 1 + i as u32;
            trunk[8 + 4 * i..12 + 4 * i].copy_from_slice(&leaf.to_be_bytes());
            let mut junk = vec![0u8; PAGE_SIZE];
            junk[0] = 0xfe; // recognizable non-btree garbage
            junk[1] = i as u8;
            pages[leaf as usize - 1] = junk;
            layout.freelist_pages.push(leaf);
        }
        pages[freelist_head as usize - 1] = trunk;
    }

    // File header at the front of page 1.
    page1[0..16].copy_from_slice(b"SQLite format 3\0");
    page1[16..18].copy_from_slice(&(PAGE_SIZE as u16).to_be_bytes());
    page1[18] = 1; // file format write version
    page1[19] = 1; // file format read version
    page1[20] = 0; // reserved bytes per page
    page1[21] = 64;
    page1[22] = 32;
    page1[23] = 32;
    page1[24..28].copy_from_slice(&1u32.to_be_bytes()); // change counter
    page1[28..32].copy_from_slice(&page_count.to_be_bytes());
    page1[32..36].copy_from_slice(&freelist_head.to_be_bytes());
    page1[36..40].copy_from_slice(&freelist_count.to_be_bytes());
    page1[40..44].copy_from_slice(&1u32.to_be_bytes()); // schema cookie
    page1[44..48].copy_from_slice(&4u32.to_be_bytes()); // schema format
    page1[56..60].copy_from_slice(&1u32.to_be_bytes()); // UTF-8
    page1[92..96].copy_from_slice(&1u32.to_be_bytes()); // version-valid-for
    page1[96..100].copy_from_slice(&3_045_001u32.to_be_bytes()); // sqlite version
    pages[0] = page1;

    layout.page_count = page_count;
    let mut file = Vec::with_capacity(page_count as usize * PAGE_SIZE);
    for page in pages {
        assert_eq!(page.len(), PAGE_SIZE, "unassigned page in layout");
        file.extend_from_slice(&page);
    }
    (file, layout)
}

// ---- ready-made specimens ------------------------------------------------------

/// A small single-leaf table: `notes(id, body)` with 3 rows.
fn small_table(name: &str) -> Obj {
    let rows = (1..=3)
        .map(|i| (i, encode_record(&[V::I(i), t(&format!("note body {i}"))])))
        .collect();
    Obj::table(name, "id INTEGER PRIMARY KEY, body TEXT", rows)
}

/// A table big enough to need an interior page (multi-leaf b-tree).
fn multi_leaf_table(name: &str, rows: usize) -> Obj {
    let rows = (1..=rows as i64)
        .map(|i| {
            (
                i,
                encode_record(&[V::I(i), t(&format!("row {i} padding padding padding"))]),
            )
        })
        .collect();
    Obj::table(name, "id INTEGER PRIMARY KEY, label TEXT", rows)
}

/// A table with one row whose blob spills into an overflow chain of at least
/// `chain_len` pages.
fn overflow_table(name: &str, chain_len: usize) -> Obj {
    let blob_len = max_local_table() + (USABLE - 4) * (chain_len - 1) + 40;
    let blob: Vec<u8> = (0..blob_len).map(|i| (i % 251) as u8).collect();
    let rows = vec![(1, encode_record(&[V::I(1), V::B(blob)]))];
    Obj::table(name, "id INTEGER PRIMARY KEY, data BLOB", rows)
}

// ---- opening what was built ------------------------------------------------------

fn open(bytes: &[u8]) -> DbFile {
    DbFile::open("a.db", bytes.to_vec()).unwrap()
}

fn built(objects: &[Obj], freelist_leaves: usize) -> (DbFile, Layout) {
    let (bytes, layout) = build_db(objects, freelist_leaves);
    (open(&bytes), layout)
}

fn quiet() -> Sidecars {
    Sidecars {
        wal_len: None,
        journal_len: None,
    }
}

#[test]
fn built_db_opens_with_expected_header() {
    let (db, layout) = built(&[small_table("notes")], 0);
    assert_eq!(db.page_size(), 512);
    assert_eq!(db.page_count(), layout.page_count);
    assert_eq!(db.header().freelist_head, 0);
}

#[test]
fn schema_reader_finds_tables_and_roots() {
    let (mut db, layout) = built(&[small_table("notes"), small_table("tags")], 0);
    let schema = read_schema(&mut db).unwrap();
    assert_eq!(schema.len(), 2);
    assert_eq!(schema[0].name, "notes");
    assert_eq!(schema[0].rootpage, layout.roots["notes"]);
    assert_eq!(schema[1].name, "tags");
    assert_eq!(schema[1].rootpage, layout.roots["tags"]);
    assert!(schema.iter().all(|o| o.otype == "table"));
}

#[test]
fn schema_is_sorted_by_name() {
    let (mut db, _) = built(
        &[
            small_table("zebra"),
            small_table("apple"),
            Obj::index("mid_idx", "apple", "body", vec![(1, encode_record(&[t("k"), V::I(1)]))]),
        ],
        0,
    );
    let names: Vec<String> = read_schema(&mut db)
        .unwrap()
        .into_iter()
        .map(|o| o.name)
        .collect();
    assert_eq!(names, vec!["apple", "mid_idx", "zebra"]);
}

#[test]
fn schema_reader_wants_utf8_databases() {
    let (mut bytes, _) = build_db(&[small_table("notes")], 0);
    bytes[59] = 2;
    let e = read_schema(&mut open(&bytes)).unwrap_err();
    assert_eq!(
        e.message(),
        "unsupported text encoding 2 (litegraft 0.1 reads UTF-8 databases)"
    );
}

/// A database whose only schema row is of this type and has this root page.
fn with_root(otype: &str, root: i64) -> Vec<u8> {
    let (mut bytes, _) = build_db(&[small_table("notes")], 0);
    let record = encode_record(&[t(otype), t("notes"), t("notes"), V::I(root), t("sql")]);
    let page1 = serialize_btree_page(1, 13, None, &[table_leaf_cell(1, &record, None)]);
    bytes[100..512].copy_from_slice(&page1[100..512]);
    bytes
}

#[test]
fn root_pages_out_of_range_are_refused() {
    for root in [1i64 << 32, (1 << 32) + 2, i64::MAX] {
        for otype in ["table", "index"] {
            let mut db = open(&with_root(otype, root));
            let why = format!("schema root page {root} out of range");
            assert_eq!(read_schema(&mut db).unwrap_err().message(), why);
            assert_eq!(attribute_pages(&mut db).unwrap_err().message(), why);
        }
    }
    // The largest page number is a number, though there is no such page.
    let mut db = open(&with_root("table", u32::MAX as i64));
    assert_eq!(read_schema(&mut db).unwrap()[0].rootpage, u32::MAX);
    assert!(attribute_pages(&mut db).is_err());
    // A view has no pages, whatever its row says.
    let mut db = open(&with_root("view", (1 << 32) + 2));
    assert_eq!(read_schema(&mut db).unwrap().len(), 0);
}

#[test]
fn single_leaf_table_walk_returns_only_its_root() {
    let (mut db, layout) = built(&[small_table("notes")], 0);
    let pages = walk_btree(&mut db, layout.roots["notes"]).unwrap();
    assert_eq!(pages.btree, vec![layout.roots["notes"]]);
    assert!(pages.overflow.is_empty());
}

#[test]
fn multi_leaf_table_walk_collects_interior_and_all_leaves() {
    let obj = multi_leaf_table("events", 60);
    let (mut db, layout) = built(&[obj], 0);
    let expected = &layout.btree_pages["events"];
    assert!(
        expected.len() >= 4,
        "test premise: b-tree spans multiple pages, got {expected:?}"
    );
    let pages = walk_btree(&mut db, layout.roots["events"]).unwrap();
    assert_eq!(
        &pages.btree, expected,
        "walker must find the interior root and every leaf"
    );
}

#[test]
fn overflow_chain_pages_are_collected_in_order() {
    let (mut db, layout) = built(&[overflow_table("blobs", 3)], 0);
    let pages = walk_btree(&mut db, layout.roots["blobs"]).unwrap();
    assert_eq!(pages.overflow, layout.overflow_pages["blobs"]);
    assert_eq!(
        pages.overflow.len(),
        3,
        "chain length must match the builder's plan"
    );
}

#[test]
fn long_schema_rows_are_read_from_their_chain() {
    // A table whose SQL text spills off the schema page: the row is read through its chain,
    // and the page of the chain belongs to the schema.
    let (mut bytes, layout) = build_db(&[small_table("notes")], 1);
    let record = encode_record(&[
        t("table"),
        t("notes"),
        t("notes"),
        V::I(layout.roots["notes"] as i64),
        t(&"x".repeat(600)),
    ]);
    let spill = layout.page_count; // the freelist leaf becomes the chain
    let local = local_len(record.len(), max_local_table());
    let cell = table_leaf_cell(1, &record, Some(spill));
    let page1 = serialize_btree_page(1, 13, None, &[cell]);
    bytes[100..512].copy_from_slice(&page1[100..512]);
    bytes[32..40].copy_from_slice(&[0; 8]);
    let at = (spill as usize - 1) * 512;
    bytes[at..at + 512].fill(0);
    let rest = &record[local..];
    assert!(rest.len() <= 508);
    bytes[at + 4..at + 4 + rest.len()].copy_from_slice(rest);
    let mut db = open(&bytes);
    let schema = read_schema(&mut db).unwrap();
    assert_eq!(schema.len(), 1);
    assert_eq!(schema[0].name, "notes");
    let map = attribute_pages(&mut db).unwrap();
    assert_eq!(map[&spill].kind, PageKind::Overflow);
    assert_eq!(map[&spill].owner.as_deref(), Some("sqlite_schema"));
    // The trunk is not on the freelist any more, and belongs to nobody.
    assert_eq!(map[&(spill - 1)].kind, PageKind::Unattributed);
}

#[test]
fn freelist_walk_matches_builder_layout() {
    let (mut db, layout) = built(&[small_table("notes")], 4);
    assert_eq!(db.header().freelist_count, 5, "trunk + 4 leaves");
    let pages = freelist_pages(&mut db).unwrap();
    assert_eq!(pages, layout.freelist_pages);
}

#[test]
fn freelist_defects_are_named() {
    let (bytes, layout) = build_db(&[small_table("notes")], 2);
    let trunk = layout.freelist_pages[0];
    let at = (trunk as usize - 1) * 512;
    let complaint = |change: &dyn Fn(&mut Vec<u8>)| -> String {
        let mut b = bytes.clone();
        change(&mut b);
        freelist_pages(&mut open(&b)).unwrap_err().message()
    };
    assert_eq!(
        complaint(&|b| b[at..at + 4].copy_from_slice(&999u32.to_be_bytes())),
        "freelist trunk chain invalid at page 999"
    );
    assert_eq!(
        complaint(&|b| b[at..at + 4].copy_from_slice(&trunk.to_be_bytes())),
        format!("freelist trunk chain invalid at page {trunk}")
    );
    assert_eq!(
        complaint(&|b| b[at + 4..at + 8].copy_from_slice(&127u32.to_be_bytes())),
        format!("freelist trunk {trunk} claims 127 leaves")
    );
    assert_eq!(
        complaint(&|b| b[at + 8..at + 12].copy_from_slice(&0u32.to_be_bytes())),
        "freelist leaf 0 out of range"
    );
}

#[test]
fn attribution_covers_every_page_with_no_unattributed() {
    let objs = vec![
        small_table("notes"),
        multi_leaf_table("events", 40),
        overflow_table("blobs", 2),
    ];
    let (mut db, layout) = built(&objs, 3);
    let map = attribute_pages(&mut db).unwrap();
    assert_eq!(map.len() as u32, layout.page_count);
    for (pgno, owner) in &map {
        assert_ne!(
            owner.kind,
            PageKind::Unattributed,
            "page {pgno} left unattributed"
        );
    }
    assert_eq!(map[&1].owner.as_deref(), Some("sqlite_schema"));
    for &p in &layout.btree_pages["events"] {
        assert_eq!(map[&p].owner.as_deref(), Some("events"), "page {p}");
        assert_eq!(map[&p].kind, PageKind::BTree);
    }
    for &p in &layout.overflow_pages["blobs"] {
        assert_eq!(map[&p].owner.as_deref(), Some("blobs"), "page {p}");
        assert_eq!(map[&p].kind, PageKind::Overflow);
    }
    for &p in &layout.freelist_pages {
        assert_eq!(map[&p].kind, PageKind::Freelist, "page {p}");
    }
}

#[test]
fn attribution_of_a_snapshot_equals_attribution_of_the_file() {
    // The walker must behave identically over the object store, because
    // `diff` attributes historical states without restoring them.
    let objs = vec![multi_leaf_table("events", 40), overflow_table("blobs", 2)];
    let (mut db, _layout) = built(&objs, 2);
    let mut store = Store::init("a.db.litegraft", false).unwrap();
    let outcome = snap(&mut store, &mut db, &quiet(), "baseline", false, 0).unwrap();

    let file_map = attribute_pages(&mut db).unwrap();
    let mut snap_src = SnapshotSource::open(&store, &outcome.id).unwrap();
    let snap_map = attribute_pages(&mut snap_src).unwrap();
    assert_eq!(file_map, snap_map);
}

#[test]
fn pointer_maps_and_the_lock_byte() {
    let (mut bytes, layout) = build_db(&[multi_leaf_table("events", 40)], 110);
    let db = open(&bytes);
    assert!(ptrmap_pages(&db).is_empty());
    assert_eq!(lock_byte_page(&db), None);
    bytes[55] = 1;
    let db = open(&bytes);
    assert!(layout.page_count > 105);
    assert_eq!(ptrmap_pages(&db), vec![2, 105]);
    assert_eq!(attribute_pages(&mut open(&bytes)).unwrap()[&105].kind, PageKind::Freelist);
}

#[test]
fn walker_rejects_out_of_range_child_pointer() {
    let (mut bytes, layout) = build_db(&[multi_leaf_table("events", 60)], 0);
    // Corrupt the interior root's right-most pointer to point past the file.
    let root = layout.roots["events"];
    let off = (root as usize - 1) * 512 + 8;
    bytes[off..off + 4].copy_from_slice(&9999u32.to_be_bytes());
    let err = walk_btree(&mut open(&bytes), root).unwrap_err();
    assert!(err.message().contains("out of range"), "{}", err.message());
    assert_eq!(err.message(), "b-tree pointer to page 9999 out of range");
}

#[test]
fn walker_rejects_pointer_cycles_instead_of_looping() {
    let (mut bytes, layout) = build_db(&[multi_leaf_table("events", 60)], 0);
    // Point the interior root's right-most pointer back at the root itself.
    let root = layout.roots["events"];
    let off = (root as usize - 1) * 512 + 8;
    bytes[off..off + 4].copy_from_slice(&root.to_be_bytes());
    let err = walk_btree(&mut open(&bytes), root).unwrap_err();
    assert!(err.message().contains("cycle"), "{}", err.message());
}

#[test]
fn walker_rejects_broken_overflow_chains() {
    let (bytes, layout) = build_db(&[overflow_table("blobs", 3)], 0);
    let root = layout.roots["blobs"];
    let chain = &layout.overflow_pages["blobs"];
    let second = (chain[1] as usize - 1) * 512;
    let complaint = |next: u32| -> String {
        let mut b = bytes.clone();
        b[second..second + 4].copy_from_slice(&next.to_be_bytes());
        walk_btree(&mut open(&b), root).unwrap_err().message()
    };
    assert_eq!(complaint(0), "overflow chain shorter than payload length");
    assert_eq!(complaint(500), "overflow pointer to page 500 out of range");
    assert_eq!(
        complaint(chain[0]),
        format!("overflow chain cycle at page {}", chain[0])
    );
}

#[test]
fn walker_rejects_cells_outside_of_their_page() {
    let (bytes, layout) = build_db(&[small_table("notes")], 0);
    let root = layout.roots["notes"];
    let at = (root as usize - 1) * 512;
    let mut b = bytes.clone();
    b[at + 8..at + 10].copy_from_slice(&600u16.to_be_bytes());
    assert_eq!(
        walk_btree(&mut open(&b), root).unwrap_err().message(),
        format!("page {root}: cell 0 offset 600 out of page")
    );
    let mut b = bytes.clone();
    b[at + 3..at + 5].copy_from_slice(&1000u16.to_be_bytes());
    assert!(walk_btree(&mut open(&b), root).is_err());
    let mut b = bytes;
    b[at + 8..at + 10].copy_from_slice(&511u16.to_be_bytes());
    b[at + 511] = 0x81;
    assert_eq!(
        walk_btree(&mut open(&b), root).unwrap_err().message(),
        "truncated varint"
    );
}

#[test]
fn schema_reader_rejects_corrupt_cell_pointers_without_panicking() {
    // A schema page claiming far more cells than fit must produce an error,
    // not an out-of-bounds panic: `tables`/`diff` run this on user files.
    let (mut bytes, _layout) = build_db(&[small_table("notes")], 0);
    // Page 1's b-tree header starts after the 100-byte file header; bytes
    // 3..5 of it are the cell count.
    bytes[103..105].copy_from_slice(&u16::MAX.to_be_bytes());
    let err = read_schema(&mut open(&bytes)).unwrap_err();
    assert!(err.message().contains("truncated"), "{}", err.message());
}

#[test]
fn schema_reader_rejects_circles_and_foreign_pages() {
    let (bytes, _layout) = build_db(&[small_table("notes")], 0);
    let mut b = bytes.clone();
    // An interior schema page without cells whose only child is itself.
    b[100] = 5;
    b[103..105].copy_from_slice(&[0, 0]);
    b[108..112].copy_from_slice(&1u32.to_be_bytes());
    assert_eq!(
        read_schema(&mut open(&b)).unwrap_err().message(),
        "schema b-tree cycle"
    );
    let mut b = bytes;
    b[100] = 10;
    assert_eq!(
        read_schema(&mut open(&b)).unwrap_err().message(),
        "schema page 1 has non-table type 10"
    );
}

#[test]
fn walker_rejects_unknown_page_type() {
    let (mut bytes, layout) = build_db(&[small_table("notes")], 0);
    let root = layout.roots["notes"];
    bytes[(root as usize - 1) * 512] = 42;
    let err = walk_btree(&mut open(&bytes), root).unwrap_err();
    assert!(err.message().contains("page type"), "{}", err.message());
    assert_eq!(
        err.message(),
        format!("page {root}: unknown b-tree page type 42")
    );
}

#[test]
fn walker_survives_short_pages_of_a_damaged_store() {
    let (mut db, layout) = built(&[multi_leaf_table("events", 40)], 0);
    let mut store = Store::init("s", false).unwrap();
    let id = snap(&mut store, &mut db, &quiet(), "", false, 0).unwrap().id;
    let manifest = store.read_manifest(&id).unwrap();
    let root = layout.roots["events"];
    for keep in [0usize, 4, 11] {
        let hash = &manifest.page_hashes[root as usize - 1];
        let mut damaged = store.clone();
        let mut page = damaged.read_object(hash).unwrap();
        page.truncate(keep);
        damaged.objects.put(hash, page);
        let mut src = SnapshotSource::open(&damaged, &id).unwrap();
        assert_eq!(
            walk_btree(&mut src, root).unwrap_err().message(),
            format!("page {root}: too short")
        );
    }
}

// ---- the commands --------------------------------------------------------------------

/// A database with a store beside it, as the commands see them.
struct Playground {
    store: Store,
    bytes: Vec<u8>,
    beside: Sidecars,
}

/// Two tables, events (multi-page) and notes, and a fresh store.
fn playground() -> Playground {
    let (bytes, _) = build_db(&[multi_leaf_table("events", 120), small_table("notes")], 0);
    let mut p = Playground {
        store: Store::init("unused", false).unwrap(),
        bytes,
        beside: quiet(),
    };
    let (store, lines) = cmd_init(&p.working(), "app.db.litegraft", false, false).unwrap();
    assert!(lines[0].contains("initialized empty store at app.db.litegraft"));
    p.store = store;
    p
}

impl Playground {
    fn working(&self) -> Working {
        Working {
            path: "app.db".to_string(),
            exists: true,
            content: Ok(self.bytes.clone()),
            beside: self.beside,
        }
    }

    /// The same database with one more note: only pages of notes differ.
    fn mutate_notes(&mut self) {
        let mut notes = small_table("notes");
        notes
            .rows
            .push((4, encode_record(&[V::I(4), V::T("a fourth note".into())])));
        self.bytes = build_db(&[multi_leaf_table("events", 120), notes], 0).0;
    }

    fn run(&mut self, words: &[&str]) -> Result<Vec<String>, Error> {
        let argv: Vec<String> = words.iter().map(|s| s.to_string()).collect();
        let args = parse_args(&argv).unwrap();
        match args.command.as_str() {
            "snap" => {
                let w = self.working();
                let o = cmd_snap(&mut self.store, &w, &args, 1_783_872_540)?;
                Ok(snap_report(&o, args.json, "1.5"))
            }
            "log" => cmd_log(&self.store, args.limit, args.json),
            "branch" => cmd_branch(&mut self.store, "app.db", &args),
            "checkout" => {
                let w = self.working();
                let c = cmd_checkout(&mut self.store, &w, &args)?;
                self.bytes = c.bytes;
                Ok(c.lines)
            }
            "status" => cmd_status(&self.store, &self.working(), &args),
            "diff" => cmd_diff(&self.store, &self.working(), &args),
            "tables" => {
                if tables_wants_working(&args) {
                    cmd_tables_working(&self.working(), &args)
                } else {
                    cmd_tables_ref(&self.store, &args)
                }
            }
            "gc" => cmd_gc(&mut self.store, args.json),
            other => panic!("no command {other}"),
        }
    }

    fn ok(&mut self, words: &[&str]) -> String {
        match self.run(words) {
            Ok(lines) => lines.join("\n"),
            Err(e) => panic!("{words:?}: {}", e.message()),
        }
    }

    fn refused(&mut self, words: &[&str]) -> String {
        match self.run(words) {
            Ok(lines) => panic!("{words:?} went through: {lines:?}"),
            Err(e) => e.message(),
        }
    }
}

/// Extract a bare (non-string) JSON field from single-line output.
fn field(json: &str, key: &str) -> String {
    let pat = format!("\"{key}\":");
    let start = json
        .find(&pat)
        .unwrap_or_else(|| panic!("no {key} in {json}"))
        + pat.len();
    json[start..]
        .chars()
        .take_while(|c| c.is_ascii_alphanumeric() || *c == '.')
        .collect()
}

fn string_field(json: &str, key: &str) -> String {
    let pat = format!("\"{key}\":\"");
    let start = json
        .find(&pat)
        .unwrap_or_else(|| panic!("no {key} in {json}"))
        + pat.len();
    json[start..].chars().take_while(|c| *c != '"').collect()
}

#[test]
fn init_rejects_a_non_sqlite_file() {
    let mut p = playground();
    p.bytes = b"definitely not a database, just bytes".to_vec();
    let e = cmd_init(&p.working(), "s", false, false).err().unwrap();
    assert!(e.message().contains("SQLite"), "{}", e.message());
    let mut gone = p.working();
    gone.content = Err("No such file or directory (os error 2)".to_string());
    let e = cmd_init(&gone, "s", false, false).err().unwrap();
    assert_eq!(
        e.message(),
        "cannot open app.db: No such file or directory (os error 2)"
    );
}

#[test]
fn init_twice_fails_cleanly() {
    let p = playground();
    let e = cmd_init(&p.working(), "app.db.litegraft", true, false).err().unwrap();
    assert!(e.message().contains("already initialized"));
}

#[test]
fn first_snap_stores_every_page_and_second_is_a_noop() {
    let mut p = playground();
    let out = p.ok(&["snap", "app.db", "-m", "baseline"]);
    assert!(out.contains("snap "), "{out}");
    assert!(
        out.contains("0 deduped"),
        "first snap dedups nothing: {out}"
    );
    let before = p.store.clone();
    let again = p.ok(&["snap", "app.db"]);
    assert!(again.contains("no page changes"), "{again}");
    assert_eq!(p.store, before, "a second snap changes nothing");
}

#[test]
fn snap_json_reports_dedup_counts() {
    let mut p = playground();
    p.ok(&["snap", "app.db", "-m", "baseline"]);
    p.mutate_notes();
    let out = p.ok(&["snap", "app.db", "-m", "one more note", "--json"]);
    assert!(
        out.starts_with('{') && out.trim_end().ends_with('}'),
        "json object: {out}"
    );
    for key in [
        "\"id\":",
        "\"pages\":",
        "\"new_objects\":",
        "\"dedup_pages\":",
        "\"changed\":true",
    ] {
        assert!(out.contains(key), "missing {key} in {out}");
    }
    // Only the notes page (and page 1's header/schema page if touched)
    // changed; the events pages must all dedup.
    let new_objects: u32 = field(&out, "new_objects").parse().unwrap();
    let pages: u32 = field(&out, "pages").parse().unwrap();
    assert!(
        new_objects <= 3,
        "expected a tiny delta, wrote {new_objects} of {pages} pages"
    );
    assert!(pages > 10, "playground db should be multi-page");
    let dedup: u32 = field(&out, "dedup_pages").parse().unwrap();
    assert_eq!(new_objects + dedup, pages);
    assert_eq!(field(&out, "elapsed_ms"), "1.5");
    let written: u32 = field(&out, "bytes_written").parse().unwrap();
    assert_eq!(written, new_objects * 512);
}

#[test]
fn same_state_on_two_branches_shares_one_manifest() {
    let mut p = playground();
    p.ok(&["snap", "app.db", "-m", "baseline"]);
    p.ok(&["branch", "app.db", "other"]);
    p.ok(&["checkout", "app.db", "other"]);
    p.mutate_notes();
    p.ok(&["snap", "app.db", "-m", "on other"]);
    p.ok(&["checkout", "app.db", "main"]);
    p.mutate_notes();
    p.ok(&["snap", "app.db", "-m", "on main"]);
    assert_eq!(p.store.list_snapshots().len(), 2);
    assert_eq!(
        p.store.resolve("main").unwrap(),
        p.store.resolve("other").unwrap()
    );
    let id = p.store.resolve("main").unwrap();
    assert_eq!(p.store.read_manifest(&id).unwrap().message, "on other");
}

#[test]
fn log_lists_snapshots_newest_first_with_messages() {
    let mut p = playground();
    assert_eq!(
        p.ok(&["log", "app.db"]),
        "no snapshots yet (run `litegraft snap <db>`)"
    );
    p.ok(&["snap", "app.db", "-m", "baseline"]);
    p.mutate_notes();
    p.ok(&["snap", "app.db", "-m", "added note four"]);
    let out = p.ok(&["log", "app.db"]);
    let lines: Vec<&str> = out.lines().collect();
    assert_eq!(lines.len(), 2);
    assert!(lines[0].contains("added note four"), "{out}");
    assert!(lines[1].contains("baseline"), "{out}");
    assert!(lines[0].contains("2026-07-12 16:09:00 UTC"), "{out}");
    let limited = p.ok(&["log", "app.db", "--limit", "1"]);
    assert_eq!(limited.lines().count(), 1);
    // JSON view: an array whose root snapshot has a null parent.
    let json = p.ok(&["log", "app.db", "--json"]);
    assert!(json.trim_start().starts_with('['), "{json}");
    assert!(
        json.contains("\"parent\":null"),
        "root snapshot has null parent: {json}"
    );
    assert!(json.matches("\"id\":").count() >= 2, "{json}");
}

#[test]
fn log_limit_is_a_maximum() {
    let mut p = playground();
    p.ok(&["snap", "app.db", "-m", "baseline"]);
    assert_eq!(p.run(&["log", "app.db", "--limit", "0"]).unwrap().len(), 0);
    assert_eq!(p.ok(&["log", "app.db", "--limit", "0", "--json"]), "[]");
    assert_eq!(p.run(&["log", "app.db", "--limit", "9"]).unwrap().len(), 1);
}

#[test]
fn log_notices_a_circular_history() {
    let mut p = playground();
    p.ok(&["snap", "app.db", "-m", "baseline"]);
    let id = p.store.resolve("main").unwrap();
    let text = String::from_utf8(p.store.snaps.get(&id).unwrap().clone()).unwrap();
    let text = text.replace("parent -", &format!("parent {id}"));
    p.store.snaps.put(&id, text.into_bytes());
    assert_eq!(
        p.refused(&["log", "app.db"]),
        "snapshot history runs in a circle"
    );
    assert_eq!(p.run(&["log", "app.db", "--limit", "5"]).unwrap().len(), 5);
}

#[test]
fn status_reports_clean_then_dirty() {
    let mut p = playground();
    let unborn = p.ok(&["status", "app.db"]);
    assert!(unborn.contains("head:    (no snapshots yet)"), "{unborn}");
    p.ok(&["snap", "app.db", "-m", "baseline"]);
    let clean = p.ok(&["status", "app.db"]);
    assert!(clean.contains("state:   clean"), "{clean}");
    assert!(clean.contains("\"baseline\""), "{clean}");
    p.mutate_notes();
    let dirty = p.ok(&["status", "app.db"]);
    assert!(dirty.contains("dirty"), "{dirty}");
    let json = p.ok(&["status", "app.db", "--json"]);
    assert!(json.contains("\"dirty\":true"), "{json}");
    assert!(json.contains("\"branch\":\"main\""), "{json}");
    let changed: u32 = field(&json, "pages_changed").parse().unwrap();
    assert!(changed >= 1);
}

#[test]
fn branch_create_list_and_switch_roundtrip() {
    let mut p = playground();
    p.ok(&["snap", "app.db", "-m", "baseline"]);
    let before = p.bytes.clone();

    p.ok(&["branch", "app.db", "fix/notes"]);
    let list = p.ok(&["branch", "app.db"]);
    assert!(list.contains("* main"), "{list}");
    assert!(list.contains("  fix/notes"), "{list}");

    p.ok(&["checkout", "app.db", "fix/notes"]);
    p.mutate_notes();
    p.ok(&["snap", "app.db", "-m", "notes work"]);

    // Back to main: the file must be byte-identical to the baseline.
    p.ok(&["checkout", "app.db", "main"]);
    assert_eq!(p.bytes, before, "checkout must restore bytes exactly");
    let list = p.ok(&["branch", "app.db"]);
    assert!(list.contains("* main"), "{list}");

    // And forward again: the branch still has the extra note.
    p.ok(&["checkout", "app.db", "fix/notes"]);
    assert_ne!(p.bytes, before);
}

#[test]
fn branch_lines_are_aligned() {
    let mut p = playground();
    assert_eq!(
        p.ok(&["branch", "app.db"]),
        "no branches with snapshots yet (run `litegraft snap <db>`)"
    );
    assert_eq!(
        p.refused(&["branch", "app.db", "early"]),
        "branch \"main\" has no snapshots yet; snap first or use --at <ref>"
    );
    p.ok(&["snap", "app.db", "-m", "baseline"]);
    let id = p.store.resolve("main").unwrap();
    assert_eq!(
        p.ok(&["branch", "app.db"]),
        format!("* main                     {}", &id[..12])
    );
    let made = p.ok(&["branch", "app.db", "w", "--at", &id[..6]]);
    assert_eq!(
        made,
        format!(
            "branch w created at {}\nswitch with: litegraft checkout app.db w",
            &id[..12]
        )
    );
    assert_eq!(
        p.refused(&["branch", "app.db", "v", "--at", "zzzz"]),
        "unknown ref \"zzzz\" (not a branch, snapshot id, or unique prefix)"
    );
}

#[test]
fn branch_rejects_duplicates_and_bad_names() {
    let mut p = playground();
    p.ok(&["snap", "app.db", "-m", "baseline"]);
    p.ok(&["branch", "app.db", "wip"]);
    let dup = p.refused(&["branch", "app.db", "wip"]);
    assert!(dup.contains("already exists"));
    let bad = p.refused(&["branch", "app.db", "no spaces"]);
    assert!(bad.contains("invalid branch name"));
}

#[test]
fn checkout_refuses_to_discard_unsnapshotted_work() {
    let mut p = playground();
    p.ok(&["snap", "app.db", "-m", "baseline"]);
    p.mutate_notes();
    let refuse = p.refused(&["checkout", "app.db", "main"]);
    assert!(refuse.contains("un-snapshotted"), "{refuse}");
    // --force discards on purpose.
    p.ok(&["checkout", "app.db", "main", "--force"]);
    let status = p.ok(&["status", "app.db"]);
    assert!(status.contains("clean"), "{status}");
}

#[test]
fn checkout_without_a_working_file() {
    let mut p = playground();
    p.ok(&["snap", "app.db", "-m", "baseline"]);
    let before = p.bytes.clone();
    let mut w = p.working();
    w.exists = false;
    w.content = Err("gone".to_string());
    let argv: Vec<String> = ["checkout", "app.db", "main"]
        .iter()
        .map(|s| s.to_string())
        .collect();
    let args = parse_args(&argv).unwrap();
    let c = cmd_checkout(&mut p.store, &w, &args).unwrap();
    assert_eq!(c.bytes, before);
    assert_eq!(
        p.refused(&["checkout", "app.db"]),
        "checkout needs a ref (branch, snapshot id, or prefix)"
    );
}

#[test]
fn checkout_heeds_the_files_beside() {
    let mut p = playground();
    p.ok(&["snap", "app.db", "-m", "baseline"]);
    p.beside.wal_len = Some(32 + 24 + 512);
    let e = p.refused(&["checkout", "app.db", "main"]);
    assert!(e.contains("wal_checkpoint"), "{e}");
    assert!(e.starts_with("app.db-wal holds ~1 frame(s)"), "{e}");
    p.ok(&["checkout", "app.db", "main", "--allow-wal"]);
    // Force discards a state, but overrides no guard.
    let e = p.refused(&["checkout", "app.db", "main", "--force"]);
    assert!(e.contains("wal_checkpoint"), "{e}");
    p.ok(&["checkout", "app.db", "main", "--force", "--allow-wal"]);
    p.beside.journal_len = Some(1);
    let e = p.refused(&["checkout", "app.db", "main", "--allow-wal"]);
    assert!(e.contains("journal"), "{e}");
    let before = p.bytes.clone();
    p.bytes = b"not a database".to_vec();
    let e = p.refused(&["checkout", "app.db", "main", "--force", "--allow-wal"]);
    assert_eq!(
        e,
        "app.db-journal exists and is non-empty: a rollback transaction may be mid-flight; \
         close the writer (or delete a stale journal) and retry"
    );
    p.beside = quiet();
    p.ok(&["checkout", "app.db", "main", "--force"]);
    assert_eq!(p.bytes, before);
}

#[test]
fn empty_files_beside_do_not_hinder_a_checkout() {
    let mut p = playground();
    p.ok(&["snap", "app.db", "-m", "baseline"]);
    p.beside = Sidecars {
        wal_len: Some(0),
        journal_len: Some(0),
    };
    p.ok(&["checkout", "app.db", "main"]);
}

#[test]
fn init_branch_and_checkout_speak_json() {
    let mut p = playground();
    let (_, lines) = cmd_init(&p.working(), "a \"store\"", false, true).unwrap();
    let pages = p.bytes.len() / 512;
    assert_eq!(
        lines,
        vec![format!(
            "{{\"store\":\"a \\\"store\\\"\",\"branch\":\"main\",\"pages\":{pages},\"page_size\":512}}"
        )]
    );
    assert_eq!(
        p.ok(&["branch", "app.db", "--json"]),
        "{\"current\":\"main\",\"detached\":null,\"branches\":[]}"
    );
    p.ok(&["snap", "app.db", "-m", "baseline"]);
    let id = p.store.resolve("main").unwrap();
    assert_eq!(
        p.ok(&["branch", "app.db", "fix/x", "--json"]),
        format!("{{\"branch\":\"fix/x\",\"id\":\"{id}\"}}")
    );
    assert_eq!(
        p.ok(&["branch", "app.db", "--json"]),
        format!(
            "{{\"current\":\"main\",\"detached\":null,\"branches\":[{{\"name\":\"fix/x\",\"id\":\"{id}\"}},{{\"name\":\"main\",\"id\":\"{id}\"}}]}}"
        )
    );
    assert_eq!(
        p.ok(&["checkout", "app.db", "fix/x", "--json"]),
        format!("{{\"branch\":\"fix/x\",\"id\":\"{id}\",\"pages\":{pages}}}")
    );
    assert_eq!(
        p.ok(&["checkout", "app.db", &id[..8], "--json"]),
        format!("{{\"branch\":null,\"id\":\"{id}\",\"pages\":{pages}}}")
    );
    let list = p.ok(&["branch", "app.db", "--json"]);
    assert!(
        list.starts_with(&format!("{{\"current\":null,\"detached\":\"{id}\",")),
        "{list}"
    );
}

#[test]
fn snap_repairs_a_damaged_object() {
    let mut p = playground();
    p.ok(&["snap", "app.db", "-m", "baseline"]);
    let id = p.store.resolve("main").unwrap();
    let hashes = p.store.read_manifest(&id).unwrap().page_hashes;
    let whole = p.store.clone();
    // A torn write, and a lost one.
    p.store.objects.put(&hashes[1], vec![0; 7]);
    p.store.remove_object(&hashes[2]);
    assert!(!cmd_verify(&p.store, false).outcome.unwrap().1);
    let out = p.ok(&["snap", "app.db", "-m", "again", "--json"]);
    assert_eq!(field(&out, "new_objects"), "2", "{out}");
    assert_eq!(field(&out, "changed"), "false", "{out}");
    assert_eq!(p.store, whole);
    assert!(cmd_verify(&p.store, false).outcome.unwrap().1);
    let before = p.bytes.clone();
    p.ok(&["checkout", "app.db", "main"]);
    assert_eq!(p.bytes, before);
}

#[test]
fn branches_lie_in_directories() {
    let mut p = playground();
    p.ok(&["snap", "app.db", "-m", "baseline"]);
    p.ok(&["branch", "app.db", "fix/x"]);
    assert_eq!(
        p.refused(&["branch", "app.db", "fix"]),
        "branch \"fix\" already exists"
    );
    assert_eq!(
        p.refused(&["branch", "app.db", "fix//x"]),
        "branch \"fix//x\" already exists"
    );
    assert_eq!(
        p.refused(&["branch", "app.db", "fix/x/y"]),
        "branch \"fix/x/y\" lies below another branch"
    );
    assert_eq!(
        p.refused(&["branch", "app.db", "new/."]),
        "branch \"new/.\" names a directory"
    );
    assert_eq!(
        p.refused(&["checkout", "app.db", "fix"]),
        "branch \"fix\" is a directory"
    );
    // Another spelling of a name advances the same branch.
    p.ok(&["checkout", "app.db", "fix/./x"]);
    p.mutate_notes();
    p.ok(&["snap", "app.db", "-m", "more"]);
    let id = p.store.resolve("fix/x").unwrap();
    assert_eq!(p.store.resolve("fix//x").unwrap(), id);
    assert_ne!(p.store.resolve("main").unwrap(), id);
    // No snapshot can be taken where no branch could hold it.
    p.store.set_head(&Head::Branch("new/.".into()));
    let held = p.store.clone();
    assert_eq!(
        p.refused(&["snap", "app.db"]),
        "branch \"new/.\" names a directory"
    );
    assert_eq!(p.store, held, "the state is recorded already");
    p.store.set_head(&Head::Branch("fix".into()));
    assert!(p.refused(&["snap", "app.db"]).contains("directory"));
    // A state that is new is recorded before the branch turns out to be none.
    let (bytes, _) = build_db(&[small_table("other")], 0);
    p.bytes = bytes;
    assert!(p.refused(&["snap", "app.db"]).contains("directory"));
    assert_eq!(p.store.snaps, held.snaps);
    p.store.set_head(&Head::Branch("up/new/.".into()));
    assert!(p.refused(&["snap", "app.db"]).contains("names a directory"));
    assert_eq!(p.store.snaps.names.len(), held.snaps.names.len() + 1);
    assert_eq!(p.store.refs, held.refs);
    assert!(p.store.branch_exists("up"));
    // So is the directory of a branch that is not made.
    p.store.set_head(&Head::Branch("main".into()));
    let e = p.refused(&["branch", "app.db", "left/behind/."]);
    assert_eq!(e, "branch \"left/behind/.\" names a directory");
    assert_eq!(
        p.refused(&["branch", "app.db", "left"]),
        "branch \"left\" already exists"
    );
}

#[test]
fn verify_overlooks_an_empty_branch_file() {
    let mut p = playground();
    p.ok(&["snap", "app.db", "-m", "baseline"]);
    p.store.refs.put("blank", b"\n".to_vec());
    let v = cmd_verify(&p.store, true);
    assert_eq!(v.complaints.len(), 0);
    let (lines, ok) = v.outcome.unwrap();
    assert!(ok, "{lines:?}");
    assert!(lines[0].contains("\"bad_refs\":0"), "{}", lines[0]);
    assert_eq!(p.refused(&["checkout", "app.db", "blank"]), "no snapshot ");
}

#[test]
fn a_trunk_that_leads_to_itself_is_refused() {
    let (mut bytes, _) = build_db(&[small_table("notes")], 2);
    let trunk = u32::from_be_bytes([bytes[32], bytes[33], bytes[34], bytes[35]]);
    let at = (trunk as usize - 1) * 512;
    bytes[at..at + 4].copy_from_slice(&trunk.to_be_bytes());
    assert_eq!(
        freelist_pages(&mut open(&bytes)).unwrap_err().message(),
        format!("freelist trunk chain invalid at page {trunk}")
    );
}

#[test]
fn checkout_by_id_prefix_detaches_and_snap_advises_branching() {
    let mut p = playground();
    let first = p.ok(&["snap", "app.db", "-m", "baseline", "--json"]);
    let id = string_field(&first, "id");
    p.mutate_notes();
    p.ok(&["snap", "app.db", "-m", "second"]);

    let out = p.ok(&["checkout", "app.db", &id[..8]]);
    assert!(out.contains("detached"), "{out}");
    assert_eq!(p.store.head().unwrap(), Head::Detached(id.clone()));
    p.mutate_notes();
    let refused = p.refused(&["snap", "app.db", "-m", "on detached"]);
    assert!(refused.contains("litegraft branch"), "{refused}");
    assert!(refused.contains(&id[..12]), "{refused}");
    let list = p.ok(&["branch", "app.db"]);
    assert!(
        list.ends_with(&format!("! HEAD detached at {}", &id[..12])),
        "{list}"
    );
    let status = p.ok(&["status", "app.db"]);
    assert!(status.contains("branch:  (detached)"), "{status}");
}

#[test]
fn diff_attributes_changes_to_the_mutated_table() {
    let mut p = playground();
    p.ok(&["snap", "app.db", "-m", "baseline"]);
    p.mutate_notes();
    let out = p.ok(&["diff", "app.db"]);
    assert!(
        out.contains("notes"),
        "diff must name the mutated table: {out}"
    );
    assert!(
        !out.contains("events"),
        "events pages did not change: {out}"
    );
    assert!(out.contains("changed"), "{out}");
}

#[test]
fn diff_between_two_snapshot_refs_without_touching_the_working_file() {
    let mut p = playground();
    p.ok(&["snap", "app.db", "-m", "baseline"]);
    p.ok(&["branch", "app.db", "fix"]);
    p.ok(&["checkout", "app.db", "fix"]);
    p.mutate_notes();
    p.ok(&["snap", "app.db", "-m", "notes work"]);
    let out = p.ok(&["diff", "app.db", "main", "fix"]);
    assert!(out.contains("notes"), "{out}");
    // The working file plays no part, whatever is in it.
    p.bytes = b"no database".to_vec();
    p.beside.journal_len = Some(7);
    assert_eq!(p.ok(&["diff", "app.db", "main", "fix"]), out);
}

#[test]
fn diff_of_identical_refs_is_empty() {
    let mut p = playground();
    p.ok(&["snap", "app.db", "-m", "baseline"]);
    let out = p.ok(&["diff", "app.db", "main", "@"]);
    assert!(out.contains("no page-level differences"), "{out}");
}

#[test]
fn diff_json_has_owner_rollup_and_per_page_list() {
    let mut p = playground();
    p.ok(&["snap", "app.db", "-m", "baseline"]);
    p.mutate_notes();
    let out = p.ok(&["diff", "app.db", "--json"]);
    for key in [
        "\"owners\":[",
        "\"pages\":[",
        "\"pgno\":",
        "\"owner\":\"notes\"",
    ] {
        assert!(out.contains(key), "missing {key} in {out}");
    }
}

#[test]
fn diff_reports_added_pages_when_the_file_grows() {
    let mut p = playground();
    p.ok(&["snap", "app.db", "-m", "baseline"]);
    // Rebuild with a new table appended: file gains pages.
    let objs = [
        multi_leaf_table("events", 120),
        small_table("notes"),
        overflow_table("blobs", 2),
    ];
    p.bytes = build_db(&objs, 0).0;
    let out = p.ok(&["diff", "app.db"]);
    assert!(
        out.contains("blobs"),
        "new table appears in the rollup: {out}"
    );
    assert!(out.contains("added"), "{out}");
    // The other way round the same pages are removed, and belong to whom they belonged.
    let back = p.ok(&["diff", "app.db", "@", "main"]);
    assert!(back.contains("blobs") && back.contains("removed"), "{back}");
}

#[test]
fn diff_lists_owners_in_order_with_totals() {
    let (bytes, _) = build_db(&[small_table("zebra"), small_table("apple")], 0);
    let mut p = playground();
    p.bytes = bytes;
    p.ok(&["snap", "app.db", "-m", "baseline"]);
    let mut zebra = small_table("zebra");
    zebra.rows.pop();
    let mut apple = small_table("apple");
    apple.rows.pop();
    p.bytes = build_db(&[zebra, apple], 1).0;
    let out = p.ok(&["diff", "app.db"]);
    let lines: Vec<&str> = out.lines().collect();
    assert_eq!(
        lines[1..],
        [
            "  apple          1 changed",
            "  sqlite_schema  1 changed",
            "  zebra          1 changed",
            "  (freelist)     2 added",
            "3 changed, 2 added, 0 removed (3 -> 5 pages x 512 bytes)",
        ]
    );
    assert_eq!(
        p.refused(&["diff", "app.db", "@", "@", "@"]),
        "diff takes at most two refs"
    );
}

#[test]
fn diff_refuses_different_page_sizes() {
    let mut p = playground();
    p.ok(&["snap", "app.db", "-m", "baseline"]);
    let mut big = vec![0u8; 1024];
    big[..100].copy_from_slice(&p.bytes[..100]);
    big[16] = 4;
    big[17] = 0;
    big[28..32].copy_from_slice(&1u32.to_be_bytes());
    big[100] = 13;
    p.bytes = big;
    assert_eq!(
        p.refused(&["diff", "app.db"]),
        "page size differs (512 vs 1024): states are not page-comparable (VACUUM or rebuilt file?)"
    );
}

#[test]
fn diff_needs_something_to_compare_with() {
    let mut p = playground();
    assert_eq!(
        p.refused(&["diff", "app.db"]),
        "branch \"main\" has no snapshots yet; nothing to diff against"
    );
}

#[test]
fn tables_breaks_down_ownership_for_file_and_snapshot() {
    let mut p = playground();
    let snap_json = p.ok(&["snap", "app.db", "-m", "baseline", "--json"]);
    let id = string_field(&snap_json, "id");
    let live = p.ok(&["tables", "app.db"]);
    for label in ["OBJECT", "events", "notes", "sqlite_schema"] {
        assert!(live.contains(label), "missing {label} in {live}");
    }
    let snap_view = p.ok(&["tables", "app.db", &id[..12]]);
    assert!(snap_view.contains("events"), "{snap_view}");
    let json = p.ok(&["tables", "app.db", "--json"]);
    assert!(json.contains("\"object\":\"events\""), "{json}");
    assert!(json.contains("\"bytes\":"), "{json}");
}

#[test]
fn tables_print_exact_columns() {
    let mut p = playground();
    p.bytes = build_db(&[overflow_table("blobs", 2)], 1).0;
    assert_eq!(
        p.ok(&["tables", "app.db", "@"]),
        "OBJECT                        PAGES  BTREE  OVERFLOW      BYTES\n\
         blobs                             3      1         2    1.5 KiB\n\
         sqlite_schema                     1      1         0      512 B\n\
         (freelist)                        2      0         0    1.0 KiB\n\
         6 pages x 512 bytes in @ (working file)"
    );
    assert_eq!(
        p.ok(&["tables", "app.db", "--json"]),
        "[{\"object\":\"blobs\",\"pages\":3,\"btree\":1,\"overflow\":2,\"bytes\":1536},\
         {\"object\":\"sqlite_schema\",\"pages\":1,\"btree\":1,\"overflow\":0,\"bytes\":512},\
         {\"object\":\"(freelist)\",\"pages\":2,\"btree\":0,\"overflow\":0,\"bytes\":1024}]"
    );
}

#[test]
fn snap_refuses_when_wal_frames_are_pending() {
    let mut p = playground();
    // A -wal with more than 32 bytes means uncheckpointed frames.
    p.beside.wal_len = Some(32 + 24 + 512);
    let refused = p.refused(&["snap", "app.db", "-m", "stale"]);
    assert!(refused.contains("wal_checkpoint"), "{refused}");
    assert!(refused.starts_with("app.db-wal holds ~1 frame(s)"), "{refused}");
    assert!(p.refused(&["status", "app.db"]).contains("wal_checkpoint"));
    assert!(p.refused(&["tables", "app.db"]).contains("wal_checkpoint"));
    // Explicit override still works (documented escape hatch).
    p.ok(&["snap", "app.db", "-m", "explicitly stale", "--allow-wal"]);
    assert!(p.refused(&["diff", "app.db"]).contains("wal_checkpoint"));
}

#[test]
fn snap_refuses_on_a_hot_journal() {
    let mut p = playground();
    p.beside.journal_len = Some(14);
    let refused = p.refused(&["snap", "app.db"]);
    assert!(refused.contains("journal"), "{refused}");
}

#[test]
fn restore_gives_back_the_file_byte_for_byte() {
    let (mut db, _) = built(&[multi_leaf_table("events", 40), overflow_table("blobs", 2)], 3);
    let mut store = Store::init("s", false).unwrap();
    let o = snap(&mut store, &mut db, &quiet(), "ends in a return\r", false, 5).unwrap();
    assert_eq!(restore(&store, &o.id, "a.db", false, &quiet()).unwrap(), db.bytes);
    assert_eq!(state_of_file(&mut db).id, o.id);
    // Bytes after the last page are no part of the database.
    let mut longer = db.bytes.clone();
    longer.extend_from_slice(b"tail");
    let mut db2 = open(&longer);
    let o2 = snap(&mut store, &mut db2, &quiet(), "", false, 6).unwrap();
    assert_eq!(o2.id, o.id);
    assert!(!o2.changed);
    assert_eq!(restore(&store, &o2.id, "a.db", false, &quiet()).unwrap(), db.bytes);
}

#[test]
fn restore_names_damaged_objects() {
    let (mut db, _) = built(&[small_table("notes")], 0);
    let mut store = Store::init("s", false).unwrap();
    let id = snap(&mut store, &mut db, &quiet(), "", false, 0).unwrap().id;
    let hash = store.read_manifest(&id).unwrap().page_hashes[1].clone();
    store.objects.put(&hash, vec![1, 2, 3]);
    assert_eq!(
        restore(&store, &id, "a.db", false, &quiet()).unwrap_err().message(),
        format!("object {hash} is 3 bytes, expected page size 512")
    );
    store.remove_object(&hash);
    assert_eq!(
        restore(&store, &id, "a.db", false, &quiet()).unwrap_err().message(),
        format!("missing object {hash} (store corrupt? run `litegraft verify`)")
    );
    assert_eq!(
        restore(&store, "nowhere", "a.db", false, &quiet()).unwrap_err().message(),
        "no snapshot nowhere"
    );
}

#[test]
fn snapshots_out_of_range_and_without_pages() {
    let (mut db, layout) = built(&[small_table("notes")], 0);
    let mut store = Store::init("s", false).unwrap();
    let id = snap(&mut store, &mut db, &quiet(), "", false, 0).unwrap().id;
    let mut src = SnapshotSource::open(&store, &id).unwrap();
    assert_eq!(src.manifest().page_count(), layout.page_count);
    assert_eq!(src.page(1).unwrap(), db.bytes[..512].to_vec());
    assert_eq!(
        src.page(3).unwrap_err().message(),
        "page 3 out of range (1..=2)"
    );
    let empty = litegraft::store::state_id(512, &[]);
    let text = format!(
        "litegraft snapshot 1\nid {empty}\nparent -\nbranch main\ncreated 0\nmessage \npagesize 512\npages 0\n--\n"
    );
    store.snaps.put(&empty, text.into_bytes());
    assert_eq!(
        SnapshotSource::open(&store, &empty).err().unwrap().message(),
        format!("snapshot {empty} has no pages")
    );
}

#[test]
fn verify_passes_then_detects_a_corrupted_object() {
    let mut p = playground();
    p.ok(&["snap", "app.db", "-m", "baseline"]);
    let v = cmd_verify(&p.store, false);
    let (lines, ok) = v.outcome.unwrap();
    assert!(ok && v.complaints.is_empty());
    assert_eq!(lines[1], "verify OK");

    // Flip one byte of one object.
    let victim = p.store.list_objects()[0].clone();
    let mut bytes = p.store.read_object(&victim).unwrap();
    bytes[100] ^= 0xff;
    p.store.objects.put(&victim, bytes);

    let v = cmd_verify(&p.store, false);
    let (lines, ok) = v.outcome.unwrap();
    assert!(!ok);
    assert_eq!(lines[1], "verify FAILED");
    assert_eq!(
        v.complaints,
        vec![format!(
            "verify: object {victim} content does not match its hash"
        )]
    );
}

#[test]
fn verify_names_every_kind_of_damage() {
    let mut p = playground();
    p.ok(&["snap", "app.db", "-m", "baseline"]);
    let id = p.store.resolve("main").unwrap();
    let lost = p.store.read_manifest(&id).unwrap().page_hashes[3].clone();
    p.store.remove_object(&lost);
    p.store.set_branch("astray", &"e".repeat(64)).unwrap();
    let other = "f".repeat(64);
    p.store.snaps.put(&other, b"noise".to_vec());
    let v = cmd_verify(&p.store, true);
    assert_eq!(
        v.complaints,
        vec![
            format!(
                "verify: snapshot {} is missing page object {lost}",
                &id[..12]
            ),
            format!("verify: snapshot {other}: bad manifest header"),
            format!("verify: branch astray points at missing snapshot {}", "e".repeat(12)),
        ]
    );
    let (lines, ok) = v.outcome.unwrap();
    assert!(!ok);
    assert!(lines[0].ends_with("\"missing\":2,\"bad_refs\":1,\"ok\":false}"), "{}", lines[0]);
    p.store.refs.put("broken", vec![0xff]);
    let v = cmd_verify(&p.store, true);
    assert_eq!(v.complaints.len(), 2);
    assert!(v.outcome.is_err());
}

#[test]
fn gc_removes_only_unreachable_objects() {
    let mut p = playground();
    p.ok(&["snap", "app.db", "-m", "baseline"]);
    // Plant an orphan object that no manifest references.
    let orphan = "z".repeat(64);
    p.store.write_object(&orphan, b"orphan");

    let out = p.ok(&["gc", "app.db"]);
    assert!(out.contains("removed 1 unreachable object"), "{out}");
    assert!(out.contains("(6 B)"), "{out}");
    assert!(!p.store.has_object(&orphan));
    // Everything referenced must survive: verify still passes, and a second
    // gc (JSON view) finds nothing left to remove.
    let (lines, ok) = cmd_verify(&p.store, false).outcome.unwrap();
    assert!(ok, "{lines:?}");
    let json = p.ok(&["gc", "app.db", "--json"]);
    assert!(json.contains("\"removed\":0"), "{json}");
    let kept: u32 = field(&json, "kept").parse().unwrap();
    assert!(kept > 0, "{json}");
    assert_eq!(field(&json, "bytes_freed"), "0");
}

#[test]
fn gc_stops_before_an_unreadable_manifest() {
    let mut p = playground();
    p.ok(&["snap", "app.db", "-m", "baseline"]);
    p.store.write_object("orphan", b"x");
    p.store.snaps.put(&"f".repeat(64), b"noise".to_vec());
    assert_eq!(p.refused(&["gc", "app.db"]), "bad manifest header");
    assert!(p.store.has_object("orphan"));
}
