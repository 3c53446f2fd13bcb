//! Taking snapshots, restoring them, and reading them as databases.
//!
//! Taking a snapshot hashes every page of a database, stores the pages that the store has
//! never seen, and writes a manifest whose id is the hash of the whole state. Restoring is
//! the inverse: it gives back the bytes of the pages.

use vstd::prelude::*;

use crate::dbfile::file_page;
use crate::dbfile::header_of;
use crate::dbfile::hot_journal;
use crate::dbfile::page_out_of_range;
use crate::dbfile::page_range_error;
use crate::dbfile::same_file;
use crate::dbfile::wal_state;
use crate::dbfile::DbFile;
use crate::dbfile::DbHeader;
use crate::dbfile::PageSource;
use crate::dbfile::Pages;
use crate::dbfile::WalState;
use crate::error::refused;
use crate::error::Error;
use crate::error::ErrorView;
use crate::manifest::clone_text;
use crate::manifest::id_of;
use crate::manifest::opt_text;
use crate::manifest::page_hash;
use crate::manifest::state_id;
use crate::manifest::Manifest;
use crate::manifest::ManifestView;
use crate::sha256::hex_sha256;
use crate::snapshot_laws::ids_are_hashes;
use crate::store::branch_head_of;
use crate::store::branch_refusal;
use crate::store::has_sound_object;
use crate::store::hash_is_its_path;
use crate::store::head_of;
use crate::store::manifest_of;
use crate::store::object_of;
use crate::store::with_branch;
use crate::store::with_manifest;
use crate::store::with_object;
use crate::store::without_branch;
use crate::store::Head;
use crate::store::HeadView;
use crate::store::Store;
use crate::store::StoreView;
use crate::text::dec;
use crate::text::decimal;
use crate::text::first_bytes;
use crate::text::fitting;
use crate::text::same_text;
use crate::text::texts;

verus! {

// ---------------------------------------------------------------------------------------
// Guards
// ---------------------------------------------------------------------------------------
/// The sizes of the files that SQLite keeps beside a database, `None` where there is none.
#[derive(Debug, Clone, Copy, PartialEq, Eq, Structural)]
pub struct Sidecars {
    pub wal_len: Option<u64>,
    pub journal_len: Option<u64>,
}

/// The number of frames that a write-ahead log holds, if it holds any.
pub open spec fn pending_frames(wal_len: Option<u64>, page_size: u32) -> Option<nat> {
    match wal_len {
        None => None,
        Some(len) => if len <= 32 {
            None
        } else if (len - 32) / (24 + page_size) < 1 {
            Some(1)
        } else {
            Some(((len - 32) / (24 + page_size)) as nat)
        },
    }
}

/// Why the database file at `path` cannot be trusted, if it cannot: a rollback journal that
/// is not empty, or a write-ahead log with frames in it (which `allow_wal` overrides).
pub open spec fn guard_refusal(
    path: Seq<char>,
    page_size: u32,
    allow_wal: bool,
    beside: Sidecars,
) -> Option<ErrorView> {
    if beside.journal_len matches Some(len) && len > 0 {
        Some(
            refused(
                path
                    + "-journal exists and is non-empty: a rollback transaction may be mid-flight; close the writer (or delete a stale journal) and retry"@,
            ),
        )
    } else if pending_frames(beside.wal_len, page_size) is Some && !allow_wal {
        Some(
            refused(
                path + "-wal holds ~"@ + dec(
                    pending_frames(beside.wal_len, page_size).unwrap(),
                )
                    + " frame(s) not yet checkpointed; the main file is stale. Run `PRAGMA wal_checkpoint(TRUNCATE);` (or close all connections), then retry. Use --allow-wal to snapshot the main file anyway"@,
            ),
        )
    } else {
        None
    }
}

/// Refuses to trust the main file while the files beside it say that it is incomplete.
pub fn guard_sidecars(path: &str, page_size: u32, allow_wal: bool, beside: &Sidecars) -> (r: Result<
    (),
    Error,
>)
    ensures
        match r {
            Ok(()) => guard_refusal(path@, page_size, allow_wal, *beside) is None,
            Err(e) => guard_refusal(path@, page_size, allow_wal, *beside) == Some(e@),
        },
{
    if hot_journal(beside.journal_len) {
        let mut m = path.to_string();
        m.push_str(
            "-journal exists and is non-empty: a rollback transaction may be mid-flight; close the writer (or delete a stale journal) and retry",
        );
        return Err(Error::refused(m));
    }
    if let WalState::Pending { frames } = wal_state(beside.wal_len, page_size) {
        if !allow_wal {
            let mut m = path.to_string();
            m.push_str("-wal holds ~");
            m.push_str(decimal(frames).as_str());
            m.push_str(
                " frame(s) not yet checkpointed; the main file is stale. Run `PRAGMA wal_checkpoint(TRUNCATE);` (or close all connections), then retry. Use --allow-wal to snapshot the main file anyway",
            );
            return Err(Error::refused(m));
        }
    }
    Ok(())
}

// ---------------------------------------------------------------------------------------
// The state of a file
// ---------------------------------------------------------------------------------------
/// The pages of a file that holds `bytes`.
pub open spec fn file_pages(bytes: Seq<u8>, h: DbHeader) -> Seq<Seq<u8>> {
    Seq::new(
        h.page_count as nat,
        |i: int| file_page(bytes, h.page_size as int, i + 1),
    )
}

/// The hashes of `pages`.
pub open spec fn hashes_of(pages: Seq<Seq<u8>>) -> Seq<Seq<char>> {
    Seq::new(pages.len(), |i: int| hex_sha256(pages[i]))
}

/// The pages of an open database file.
pub open spec fn db_pages(db: DbFile) -> Seq<Seq<u8>> {
    file_pages(db.bytes@, db.header)
}

/// The id of the state of an open database file.
pub open spec fn db_id(db: DbFile) -> Seq<char> {
    id_of(db.header.page_size, hashes_of(db_pages(db)))
}

/// The hashed state of a database file.
pub struct FileState {
    pub id: String,
    pub page_size: u32,
    pub page_hashes: Vec<String>,
}

/// Reads page `i + 1` of an open file.
fn read_db_page(db: &mut DbFile, i: u32) -> (page: Vec<u8>)
    requires
        old(db).wf(),
        i < old(db).header.page_count,
    ensures
        final(db).wf(),
        same_file(*final(db), *old(db)),
        page@ == db_pages(*old(db))[i as int],
        page@.len() == old(db).header.page_size,
{
    let ghost before = *db;
    let r = db.page(i + 1);
    proof {
        let size = before.header.page_size as int;
        assert((i + 1) * size - i * size == size) by (nonlinear_arith);
        assert(0 <= i * size && (i + 1) * size <= before.header.page_count * size)
            by (nonlinear_arith)
            requires
                0 <= i < before.header.page_count,
                size >= 0,
        ;
        assert(before.header.page_count * size == size * before.header.page_count)
            by (nonlinear_arith);
    }
    match r {
        Ok(page) => page,
        Err(_) => Vec::new(),
    }
}

/// Hashes every page of a database and computes the id of its state.
pub fn state_of_file(db: &mut DbFile) -> (st: FileState)
    requires
        old(db).wf(),
    ensures
        final(db).wf(),
        same_file(*final(db), *old(db)),
        st.id@ == db_id(*old(db)),
        st.page_size == old(db).header.page_size,
        texts(st.page_hashes@) == hashes_of(db_pages(*old(db))),
{
    let ghost hashes = hashes_of(db_pages(*db));
    let n: u32 = db.page_count();
    let page_size: u32 = db.page_size();
    let mut page_hashes: Vec<String> = Vec::new();
    let mut i: u32 = 0;
    assert(texts(page_hashes@) =~= hashes.take(0));
    while i < n
        invariant
            db.wf(),
            same_file(*db, *old(db)),
            hashes == hashes_of(db_pages(*db)),
            i <= n == db.header.page_count,
            texts(page_hashes@) == hashes.take(i as int),
        decreases n - i,
    {
        let ghost before = texts(page_hashes@);
        let page = read_db_page(db, i);
        page_hashes.push(page_hash(page.as_slice()));
        assert(texts(page_hashes@) =~= before.push(hashes[i as int]));
        assert(hashes.take(i + 1) =~= before.push(hashes[i as int]));
        i = i + 1;
    }
    assert(hashes.take(i as int) =~= hashes);
    let id = state_id(page_size, page_hashes.as_slice());
    FileState { id, page_size, page_hashes }
}

// ---------------------------------------------------------------------------------------
// Taking a snapshot
// ---------------------------------------------------------------------------------------
/// What taking a snapshot did.
#[derive(Debug, Clone, PartialEq, Eq)]
pub struct SnapOutcome {
    pub id: String,
    pub parent: Option<String>,
    pub branch: String,
    pub pages: u32,
    /// Pages whose content the store did not hold, or held damaged.
    pub new_objects: u32,
    /// Pages whose content the store held already.
    pub dedup_pages: u32,
    pub bytes_written: u64,
    /// False if the state was already the head of the branch.
    pub changed: bool,
}

/// The mathematical value of a [`SnapOutcome`].
pub struct SnapOutcomeView {
    pub id: Seq<char>,
    pub parent: Option<Seq<char>>,
    pub branch: Seq<char>,
    pub pages: u32,
    pub new_objects: u32,
    pub dedup_pages: u32,
    pub bytes_written: u64,
    pub changed: bool,
}

impl View for SnapOutcome {
    type V = SnapOutcomeView;

    open spec fn view(&self) -> SnapOutcomeView {
        SnapOutcomeView {
            id: self.id@,
            parent: opt_text(self.parent),
            branch: self.branch@,
            pages: self.pages,
            new_objects: self.new_objects,
            dedup_pages: self.dedup_pages,
            bytes_written: self.bytes_written,
            changed: self.changed,
        }
    }
}

/// The store after `pages` were written, each under its hash.
pub open spec fn with_pages(s: StoreView, pages: Seq<Seq<u8>>) -> StoreView
    decreases pages.len(),
{
    if pages.len() == 0 {
        s
    } else {
        with_object(with_pages(s, pages.drop_last()), hex_sha256(pages.last()), pages.last())
    }
}

/// How many of `pages` the store does not hold, or holds damaged, when they are written one
/// after the other.
pub open spec fn new_pages(s: StoreView, pages: Seq<Seq<u8>>) -> nat
    decreases pages.len(),
{
    if pages.len() == 0 {
        0
    } else {
        new_pages(s, pages.drop_last()) + if has_sound_object(
            with_pages(s, pages.drop_last()),
            hex_sha256(pages.last()),
        ) {
            0nat
        } else {
            1nat
        }
    }
}

/// What is said of a snapshot that no branch would hold.
pub open spec fn detached_refusal(id: Seq<char>) -> ErrorView {
    refused(
        "HEAD is detached at "@ + fitting(id, 12)
            + "; create a branch first: litegraft branch <name>"@,
    )
}

/// The branch that HEAD names, and its head.
pub open spec fn head_branch(s: StoreView) -> Result<(Seq<char>, Option<Seq<char>>), ErrorView> {
    match head_of(s) {
        Err(e) => Err(e),
        Ok(HeadView::Detached(id)) => Err(detached_refusal(id)),
        Ok(HeadView::Branch(name)) => match branch_head_of(s, name) {
            Err(e) => Err(e),
            Ok(parent) => Ok((name, parent)),
        },
    }
}

/// The branch that a snapshot would advance, and its head.
pub open spec fn snap_target(s: StoreView) -> Result<(Seq<char>, Option<Seq<char>>), ErrorView> {
    match head_branch(s) {
        Err(e) => Err(e),
        Ok(target) => match branch_refusal(s, target.0) {
            Some(e) => Err(e),
            None => Ok(target),
        },
    }
}

/// Why no snapshot of `db` can be taken, if none can.
pub open spec fn snap_refusal(
    s: StoreView,
    db: DbFile,
    beside: Sidecars,
    allow_wal: bool,
) -> Option<ErrorView> {
    match guard_refusal(db.path@, db.header.page_size, allow_wal, beside) {
        Some(e) => Some(e),
        None => match snap_target(s) {
            Err(e) => Some(e),
            Ok(_) => None,
        },
    }
}

/// The manifest of a snapshot of `db` that advances `target`.
pub open spec fn snap_manifest(
    db: DbFile,
    target: (Seq<char>, Option<Seq<char>>),
    message: Seq<char>,
    now: u64,
) -> ManifestView {
    ManifestView {
        id: db_id(db),
        parent: target.1,
        branch: target.0,
        created: now,
        message,
        page_size: db.header.page_size,
        page_hashes: hashes_of(db_pages(db)),
    }
}

/// The store after the pages of `db` and a manifest of its state were stored; a manifest that
/// is there stays.
pub open spec fn recorded(
    s: StoreView,
    db: DbFile,
    target: (Seq<char>, Option<Seq<char>>),
    message: Seq<char>,
    now: u64,
) -> StoreView {
    let stored = with_pages(s, db_pages(db));
    let m = snap_manifest(db, target, message, now);
    if stored.snaps.contains_key(m.id) {
        stored
    } else {
        with_manifest(stored, m)
    }
}

/// The store after no snapshot of `db` was taken. It is as it was, unless HEAD names a branch
/// that cannot be written: the state is recorded before that turns out.
pub open spec fn unsnapped(
    s: StoreView,
    db: DbFile,
    beside: Sidecars,
    allow_wal: bool,
    message: Seq<char>,
    now: u64,
) -> StoreView {
    match head_branch(s) {
        Err(_) => s,
        Ok(target) => if guard_refusal(db.path@, db.header.page_size, allow_wal, beside) is Some {
            s
        } else {
            without_branch(recorded(s, db, target, message, now), target.0)
        },
    }
}

/// The store after a snapshot of `db` was taken: its pages are stored; unless its state is
/// the head of the branch already, there is a manifest of it, and the branch points to it.
pub open spec fn snapped(
    s: StoreView,
    db: DbFile,
    target: (Seq<char>, Option<Seq<char>>),
    message: Seq<char>,
    now: u64,
) -> StoreView {
    let stored = with_pages(s, db_pages(db));
    let m = snap_manifest(db, target, message, now);
    if target.1 == Some(m.id) {
        stored
    } else {
        with_branch(recorded(s, db, target, message, now), target.0, m.id)
    }
}

/// What taking the snapshot reports.
pub open spec fn snap_outcome(
    s: StoreView,
    db: DbFile,
    target: (Seq<char>, Option<Seq<char>>),
) -> SnapOutcomeView {
    let fresh = new_pages(s, db_pages(db));
    SnapOutcomeView {
        id: db_id(db),
        parent: target.1,
        branch: target.0,
        pages: db.header.page_count,
        new_objects: fresh as u32,
        dedup_pages: (db.header.page_count - fresh) as u32,
        bytes_written: (fresh * db.header.page_size) as u64,
        changed: target.1 != Some(db_id(db)),
    }
}

/// Stores every page of `db`, and returns their hashes and how many were new.
fn store_pages(store: &mut Store, db: &mut DbFile) -> (r: (Vec<String>, u32))
    requires
        old(store).wf(),
        old(db).wf(),
    ensures
        final(store).wf(),
        final(db).wf(),
        same_file(*final(db), *old(db)),
        final(store)@ == with_pages(old(store)@, db_pages(*old(db))),
        texts(r.0@) == hashes_of(db_pages(*old(db))),
        r.1 == new_pages(old(store)@, db_pages(*old(db))),
        r.1 <= old(db).header.page_count,
{
    let ghost s = store@;
    let ghost pages = db_pages(*db);
    let ghost hashes = hashes_of(pages);
    let n: u32 = db.page_count();
    let mut page_hashes: Vec<String> = Vec::new();
    let mut fresh: u32 = 0;
    let mut i: u32 = 0;
    assert(texts(page_hashes@) =~= hashes.take(0));
    assert(pages.take(0) =~= Seq::empty());
    while i < n
        invariant
            store.wf(),
            db.wf(),
            same_file(*db, *old(db)),
            s == old(store)@,
            pages == db_pages(*db),
            hashes == hashes_of(pages),
            fresh <= i <= n == db.header.page_count,
            texts(page_hashes@) == hashes.take(i as int),
            store@ == with_pages(s, pages.take(i as int)),
            fresh == new_pages(s, pages.take(i as int)),
        decreases n - i,
    {
        let ghost before = texts(page_hashes@);
        let page = read_db_page(db, i);
        let hash = page_hash(page.as_slice());
        proof {
            assert(pages.take(i + 1).drop_last() =~= pages.take(i as int));
            assert(pages.take(i + 1).last() == page@);
        }
        if store.write_object(hash.as_str(), page.as_slice()) {
            fresh = fresh + 1;
        }
        page_hashes.push(hash);
        assert(texts(page_hashes@) =~= before.push(hashes[i as int]));
        assert(hashes.take(i + 1) =~= before.push(hashes[i as int]));
        i = i + 1;
    }
    assert(hashes.take(i as int) =~= hashes);
    assert(pages.take(i as int) =~= pages);
    (page_hashes, fresh)
}

proof fn with_pages_only_objects(s: StoreView, pages: Seq<Seq<u8>>)
    ensures
        with_pages(s, pages) == (StoreView { objects: with_pages(s, pages).objects, ..s }),
    decreases pages.len(),
{
    if pages.len() > 0 {
        with_pages_only_objects(s, pages.drop_last());
    }
}

fn read_head_branch(store: &Store) -> (r: Result<(String, Option<String>), Error>)
    requires
        store.wf(),
    ensures
        match r {
            Ok((branch, parent)) => head_branch(store@) == Ok::<
                (Seq<char>, Option<Seq<char>>),
                ErrorView,
            >((branch@, opt_text(parent))),
            Err(e) => head_branch(store@) == Err::<(Seq<char>, Option<Seq<char>>), ErrorView>(e@),
        },
{
    let branch = match store.head() {
        Err(e) => {
            return Err(e);
        },
        Ok(Head::Detached(id)) => {
            let mut m = "HEAD is detached at ".to_string();
            m.push_str(first_bytes(id.as_str(), 12).as_str());
            m.push_str("; create a branch first: litegraft branch <name>");
            return Err(Error::refused(m));
        },
        Ok(Head::Branch(name)) => name,
    };
    match store.branch_head(branch.as_str()) {
        Err(e) => Err(e),
        Ok(parent) => Ok((branch, parent)),
    }
}

/// Takes a snapshot of `db` into `store`, at the time `now`, and advances the current branch.
/// Where the branch cannot be written, the state has been recorded all the same.
pub fn snap(
    store: &mut Store,
    db: &mut DbFile,
    beside: &Sidecars,
    message: &str,
    allow_wal: bool,
    now: u64,
) -> (r: Result<SnapOutcome, Error>)
    requires
        old(store).wf(),
        old(db).wf(),
    ensures
        final(store).wf(),
        final(db).wf(),
        same_file(*final(db), *old(db)),
        match r {
            Ok(outcome) => {
                let target = snap_target(old(store)@)->Ok_0;
                &&& snap_refusal(old(store)@, *old(db), *beside, allow_wal) is None
                &&& outcome@ == snap_outcome(old(store)@, *old(db), target)
                &&& final(store)@ == snapped(old(store)@, *old(db), target, message@, now)
            },
            Err(e) => snap_refusal(old(store)@, *old(db), *beside, allow_wal) == Some(e@)
                && final(store)@ == unsnapped(
                old(store)@,
                *old(db),
                *beside,
                allow_wal,
                message@,
                now,
            ),
        },
{
    let page_size: u32 = db.page_size();
    if let Err(e) = guard_sidecars(db.path.as_str(), page_size, allow_wal, beside) {
        return Err(e);
    }
    let (branch, parent) = match read_head_branch(store) {
        Ok(t) => t,
        Err(e) => {
            return Err(e);
        },
    };
    let ghost s = store@;
    let ghost target = (branch@, opt_text(parent));
    let (page_hashes, new_objects) = store_pages(store, db);
    let pages: u32 = db.page_count();
    proof {
        with_pages_only_objects(s, db_pages(*db));
        assert(page_size * new_objects <= 65536 * 0xffff_ffff && page_size * new_objects
            == new_objects * page_size) by (nonlinear_arith)
            requires
                0 <= page_size <= 65536,
                0 <= new_objects <= 0xffff_ffff,
        ;
    }
    let bytes_written: u64 = new_objects as u64 * page_size as u64;
    let id = state_id(page_size, page_hashes.as_slice());
    let unchanged = match &parent {
        None => false,
        Some(p) => same_text(p.as_str(), id.as_str()),
    };
    if unchanged {
        return Ok(
            SnapOutcome {
                id,
                parent,
                branch,
                pages,
                new_objects,
                dedup_pages: pages - new_objects,
                bytes_written,
                changed: false,
            },
        );
    }
    proof {
        ids_are_hashes(page_size, hashes_of(db_pages(*db)));
        hash_is_its_path(store@, id@);
    }
    if !store.has_snapshot(id.as_str()) {
        let manifest = Manifest {
            id: id.clone(),
            parent: clone_text(&parent),
            branch: branch.clone(),
            created: now,
            message: message.to_string(),
            page_size,
            page_hashes,
        };
        assert(manifest@ == snap_manifest(*db, target, message@, now));
        if let Err(e) = store.write_manifest(&manifest) {
            return Err(e);
        }
    }
    if let Err(e) = store.set_branch(branch.as_str(), id.as_str()) {
        return Err(e);
    }
    Ok(
        SnapOutcome {
            id,
            parent,
            branch,
            pages,
            new_objects,
            dedup_pages: pages - new_objects,
            bytes_written,
            changed: true,
        },
    )
}

// ---------------------------------------------------------------------------------------
// Restoring
// ---------------------------------------------------------------------------------------
/// The objects under `hashes`, one after the other, each of which must be a page of
/// `page_size` bytes; or what is wrong with the first that is not.
pub open spec fn joined(s: StoreView, page_size: u32, hashes: Seq<Seq<char>>) -> Result<
    Seq<u8>,
    ErrorView,
>
    decreases hashes.len(),
{
    if hashes.len() == 0 {
        Ok(Seq::empty())
    } else {
        match joined(s, page_size, hashes.drop_last()) {
            Err(e) => Err(e),
            Ok(before) => match object_of(s, hashes.last()) {
                Err(e) => Err(e),
                Ok(page) => if page.len() != page_size {
                    Err(
                        refused(
                            "object "@ + hashes.last() + " is "@ + dec(page.len())
                                + " bytes, expected page size "@ + dec(page_size as nat),
                        ),
                    )
                } else {
                    Ok(before + page)
                },
            },
        }
    }
}

/// The database file that snapshot `id` stands for, or why there is none.
pub open spec fn restored(s: StoreView, id: Seq<char>) -> Result<Seq<u8>, ErrorView> {
    match manifest_of(s, id) {
        Err(e) => Err(e),
        Ok(m) => joined(s, m.page_size, m.page_hashes),
    }
}

/// What is written at `path` when snapshot `id` is restored there, or why nothing is: the
/// files beside `path` say that a transaction is under way, or the snapshot is incomplete.
pub open spec fn restored_at(
    s: StoreView,
    id: Seq<char>,
    path: Seq<char>,
    allow_wal: bool,
    beside: Sidecars,
) -> Result<Seq<u8>, ErrorView> {
    match manifest_of(s, id) {
        Err(e) => Err(e),
        Ok(m) => match guard_refusal(path, m.page_size, allow_wal, beside) {
            Some(e) => Err(e),
            None => restored(s, id),
        },
    }
}

proof fn joined_fails(s: StoreView, page_size: u32, hashes: Seq<Seq<char>>, i: int)
    requires
        0 <= i <= hashes.len(),
        joined(s, page_size, hashes.take(i)) is Err,
    ensures
        joined(s, page_size, hashes) == joined(s, page_size, hashes.take(i)),
    decreases hashes.len() - i,
{
    if i < hashes.len() {
        assert(hashes.take(i + 1).drop_last() =~= hashes.take(i));
        joined_fails(s, page_size, hashes, i + 1);
    } else {
        assert(hashes.take(i) =~= hashes);
    }
}

/// The bytes of the database file that snapshot `id` stands for, to be written at `path`;
/// refused while the files beside `path` say that a transaction is under way.
pub fn restore(store: &Store, id: &str, path: &str, allow_wal: bool, beside: &Sidecars) -> (r:
    Result<Vec<u8>, Error>)
    requires
        store.wf(),
    ensures
        match r {
            Ok(bytes) => restored_at(store@, id@, path@, allow_wal, *beside) == Ok::<
                Seq<u8>,
                ErrorView,
            >(bytes@),
            Err(e) => restored_at(store@, id@, path@, allow_wal, *beside) == Err::<
                Seq<u8>,
                ErrorView,
            >(e@),
        },
{
    let manifest = match store.read_manifest(id) {
        Ok(m) => m,
        Err(e) => {
            return Err(e);
        },
    };
    if let Err(e) = guard_sidecars(path, manifest.page_size, allow_wal, beside) {
        return Err(e);
    }
    let ghost s = store@;
    let ghost hashes = manifest@.page_hashes;
    let mut bytes: Vec<u8> = Vec::new();
    let mut i: usize = 0;
    assert(hashes.take(0) =~= Seq::empty());
    while i < manifest.page_hashes.len()
        invariant
            store.wf(),
            s == store@,
            hashes == manifest@.page_hashes,
            manifest_of(s, id@) == Ok::<ManifestView, ErrorView>(manifest@),
            guard_refusal(path@, manifest.page_size, allow_wal, *beside) is None,
            i <= hashes.len(),
            joined(s, manifest.page_size, hashes.take(i as int)) == Ok::<Seq<u8>, ErrorView>(
                bytes@,
            ),
        decreases hashes.len() - i,
    {
        let hash = manifest.page_hashes[i].as_str();
        proof {
            assert(hashes.take(i + 1).drop_last() =~= hashes.take(i as int));
            assert(hashes.take(i + 1).last() == hash@);
            if joined(s, manifest.page_size, hashes.take(i + 1)) is Err {
                joined_fails(s, manifest.page_size, hashes, i + 1);
            }
        }
        let page = match store.read_object(hash) {
            Ok(p) => p,
            Err(e) => {
                return Err(e);
            },
        };
        if page.len() as u64 != manifest.page_size as u64 {
            let mut m = "object ".to_string();
            m.push_str(hash);
            m.push_str(" is ");
            m.push_str(decimal(page.len() as u64).as_str());
            m.push_str(" bytes, expected page size ");
            m.push_str(decimal(manifest.page_size as u64).as_str());
            return Err(Error::refused(m));
        }
        let ghost before = bytes@;
        bytes.extend_from_slice(page.as_slice());
        assert(bytes@ =~= before + page@);
        i = i + 1;
    }
    assert(hashes.take(i as int) =~= hashes);
    Ok(bytes)
}

// ---------------------------------------------------------------------------------------
// Snapshots as page sources
// ---------------------------------------------------------------------------------------
/// A snapshot read as a database, so that its pages can be attributed without restoring it.
pub struct SnapshotSource<'a> {
    pub store: &'a Store,
    pub manifest: Manifest,
    pub header: DbHeader,
    /// The page numbers that were asked for so far.
    pub asked: Ghost<Seq<u32>>,
}

/// The header of snapshot `m`, or why it cannot be read as a database.
pub open spec fn snapshot_header(s: StoreView, id: Seq<char>, m: ManifestView) -> Result<
    DbHeader,
    ErrorView,
> {
    if m.page_hashes.len() == 0 {
        Err(refused("snapshot "@ + id + " has no pages"@))
    } else {
        match object_of(s, m.page_hashes[0]) {
            Err(e) => Err(e),
            Ok(page) => header_of(page, (m.page_size * (m.page_hashes.len() as u32)) as nat),
        }
    }
}

/// What reading a page of snapshot `m` gives.
pub open spec fn snapshot_page(s: StoreView, m: ManifestView, pgno: u32) -> Result<
    Seq<u8>,
    ErrorView,
> {
    if pgno == 0 || pgno > m.page_hashes.len() {
        Err(page_out_of_range(pgno, m.page_hashes.len() as u32))
    } else {
        object_of(s, m.page_hashes[pgno - 1])
    }
}

/// Snapshot `m` with this header, as a source of pages.
pub open spec fn snapshot_pages(s: StoreView, m: ManifestView, header: DbHeader) -> Pages {
    Pages { header, read: |pgno: u32| snapshot_page(s, m, pgno) }
}

impl<'a> SnapshotSource<'a> {
    /// Opens snapshot `id` of `store`.
    pub fn open(store: &'a Store, id: &str) -> (r: Result<SnapshotSource<'a>, Error>)
        requires
            store.wf(),
        ensures
            match r {
                Ok(src) => src.wf() && src.store@ == store@ && manifest_of(store@, id@) == Ok::<
                    ManifestView,
                    ErrorView,
                >(src.manifest@) && snapshot_header(store@, id@, src.manifest@) == Ok::<
                    DbHeader,
                    ErrorView,
                >(src.header) && src.reads() == Seq::<u32>::empty(),
                Err(e) => match manifest_of(store@, id@) {
                    Err(f) => e@ == f,
                    Ok(m) => snapshot_header(store@, id@, m) == Err::<DbHeader, ErrorView>(e@),
                },
            },
    {
        let manifest = match store.read_manifest(id) {
            Ok(m) => m,
            Err(e) => {
                return Err(e);
            },
        };
        if manifest.page_hashes.len() == 0 {
            let mut m = "snapshot ".to_string();
            m.push_str(id);
            m.push_str(" has no pages");
            return Err(Error::refused(m));
        }
        assert(manifest@.page_hashes[0] == manifest.page_hashes@[0]@);
        let page1 = match store.read_object(manifest.page_hashes[0].as_str()) {
            Ok(p) => p,
            Err(e) => {
                return Err(e);
            },
        };
        let count: u32 = manifest.page_count();
        assert(manifest.page_size * count <= 0xffff_ffff * 0xffff_ffff) by (nonlinear_arith)
            requires
                manifest.page_size <= 0xffff_ffff,
                count <= 0xffff_ffff,
        ;
        let file_len: u64 = manifest.page_size as u64 * count as u64;
        match DbHeader::parse(page1.as_slice(), file_len) {
            Ok(header) => Ok(
                SnapshotSource { store, manifest, header, asked: Ghost(Seq::empty()) },
            ),
            Err(e) => Err(e),
        }
    }

    /// The manifest of the snapshot.
    pub fn manifest(&self) -> (m: &Manifest)
        ensures
            *m == self.manifest,
    {
        &self.manifest
    }
}

impl<'a> PageSource for SnapshotSource<'a> {
    open spec fn wf(&self) -> bool {
        self.store.wf() && self.header.wf()
    }

    open spec fn pages(&self) -> Pages {
        snapshot_pages(self.store@, self.manifest@, self.header)
    }

    open spec fn reads(&self) -> Seq<u32> {
        self.asked@
    }

    fn header(&self) -> (h: &DbHeader) {
        &self.header
    }

    fn page(&mut self, pgno: u32) -> (r: Result<Vec<u8>, Error>)
        ensures
            final(self).store == old(self).store && final(self).manifest == old(self).manifest,
    {
        self.asked = Ghost(self.asked@.push(pgno));
        if pgno == 0 || pgno as u64 > self.manifest.page_hashes.len() as u64 {
            return Err(page_range_error(pgno, self.manifest.page_count()));
        }
        let at: usize = pgno as usize - 1;
        assert(self.manifest@.page_hashes[at as int] == self.manifest.page_hashes@[at as int]@);
        self.store.read_object(self.manifest.page_hashes[at].as_str())
    }
}

} // verus!
