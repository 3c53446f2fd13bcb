//! SQLite database files: the header and page-granular reads.
//!
//! Everything else is defined in terms of the fixed-size pages that make up a database
//! file. They are read through [`PageSource`], which a live file implements here and a
//! snapshot implements in `snapshot`, so the b-tree walker works on either.

use vstd::prelude::*;
use vstd::slice::slice_subrange;
use vstd::slice::slice_to_vec;

use crate::bytes::be16;
use crate::bytes::be32;
use crate::bytes::read_be16;
use crate::bytes::read_be32;
use crate::error::invalid_data;
use crate::error::Error;
use crate::error::ErrorView;
use crate::text::dec;
use crate::text::decimal;

verus! {

/// The 16 bytes at the start of every SQLite database file: `SQLite format 3` and a NUL.
pub const MAGIC: [u8; 16] = [83, 81, 76, 105, 116, 101, 32, 102, 111, 114, 109, 97, 116, 32, 51, 0];

/// Size of the database header at the start of page 1.
pub const HEADER_LEN: usize = 100;

/// The fields of the database header that matter here.
#[derive(Debug, Clone, Copy, PartialEq, Eq, Structural)]
pub struct DbHeader {
    /// Page size in bytes: a power of two in `512..=65536`.
    pub page_size: u32,
    /// Bytes reserved at the end of every page, usually none.
    pub reserved: u8,
    /// File change counter (offset 24).
    pub change_counter: u32,
    /// Number of pages in the database.
    pub page_count: u32,
    /// First trunk page of the freelist; zero if the freelist is empty.
    pub freelist_head: u32,
    /// Number of freelist pages.
    pub freelist_count: u32,
    /// Text encoding: 1 for UTF-8, 2 and 3 for the two forms of UTF-16.
    pub text_encoding: u32,
    /// Largest root b-tree page. Non-zero means that the file is auto-vacuumed, and that
    /// pointer-map pages are interleaved in it.
    pub largest_root_btree: u32,
}

/// The page sizes that the file format admits.
pub open spec fn valid_page_size(n: int) -> bool {
    n == 512 || n == 1024 || n == 2048 || n == 4096 || n == 8192 || n == 16384 || n == 32768 || n
        == 65536
}

/// The page size that the header field `raw` stands for: 65536 does not fit in 16 bits and
/// is stored as 1.
pub open spec fn page_size_field(raw: nat) -> nat {
    if raw == 1 {
        65536
    } else {
        raw
    }
}

/// The page count of a header `buf` of a file of `file_len` bytes: the stored count if it
/// was written together with the change counter, else what the file's length gives.
pub open spec fn page_count_of(buf: Seq<u8>, file_len: nat, page_size: nat) -> u32 {
    if be32(buf, 28) != 0 && be32(buf, 92) == be32(buf, 24) {
        be32(buf, 28)
    } else {
        (file_len / page_size % 0x1_0000_0000) as u32
    }
}

/// The header at the start of `buf`, in a file of `file_len` bytes, or why it is refused.
pub open spec fn header_of(buf: Seq<u8>, file_len: nat) -> Result<DbHeader, ErrorView> {
    let page_size = page_size_field(be16(buf, 16));
    if buf.len() < HEADER_LEN {
        Err(
            invalid_data(
                "file too small for a SQLite header ("@ + dec(buf.len()) + " bytes)"@,
            ),
        )
    } else if buf.take(16) != MAGIC@ {
        Err(invalid_data("not a SQLite database (bad magic)"@))
    } else if !valid_page_size(page_size as int) {
        Err(invalid_data("invalid page size "@ + dec(page_size)))
    } else if page_size - buf[20] < 480 {
        Err(
            invalid_data(
                "reserved bytes "@ + dec(buf[20] as nat) + " leave an unusably small page"@,
            ),
        )
    } else {
        Ok(
            DbHeader {
                page_size: page_size as u32,
                reserved: buf[20],
                change_counter: be32(buf, 24),
                page_count: page_count_of(buf, file_len, page_size),
                freelist_head: be32(buf, 32),
                freelist_count: be32(buf, 36),
                text_encoding: be32(buf, 56),
                largest_root_btree: be32(buf, 52),
            },
        )
    }
}

impl DbHeader {
    /// The page size is one of the format's, and at least 480 bytes of it are usable.
    pub open spec fn wf(self) -> bool {
        valid_page_size(self.page_size as int) && self.page_size - self.reserved >= 480
    }

    /// Usable bytes per page.
    pub open spec fn usable(self) -> int {
        self.page_size - self.reserved
    }

    /// Usable bytes per page: the page size without the reserved region.
    pub fn usable_size(&self) -> (n: u32)
        requires
            self.reserved <= self.page_size,
        ensures
            n == self.usable(),
    {
        self.page_size - self.reserved as u32
    }

    /// Parses the first 100 bytes of a database file. `file_len` gives the page count where
    /// the stored one is stale.
    pub fn parse(buf: &[u8], file_len: u64) -> (r: Result<DbHeader, Error>)
        ensures
            match r {
                Ok(h) => header_of(buf@, file_len as nat) == Ok::<DbHeader, ErrorView>(h) && h.wf(),
                Err(e) => header_of(buf@, file_len as nat) == Err::<DbHeader, ErrorView>(e@),
            },
    {
        if buf.len() < HEADER_LEN {
            let mut m = "file too small for a SQLite header (".to_string();
            m.push_str(decimal(buf.len() as u64).as_str());
            m.push_str(" bytes)");
            return Err(Error::invalid_data(m));
        }
        let magic = MAGIC;
        let mut i: usize = 0;
        while i < 16
            invariant
                i <= 16,
                100 <= buf@.len(),
                magic@ == MAGIC@,
                forall|j: int| 0 <= j < i ==> buf@[j] == MAGIC@[j],
            decreases 16 - i,
        {
            if buf[i] != magic[i] {
                assert(buf@.take(16)[i as int] != MAGIC@[i as int]);
                return Err(
                    Error::invalid_data("not a SQLite database (bad magic)".to_string()),
                );
            }
            i = i + 1;
        }
        assert(buf@.take(16) =~= MAGIC@);
        let raw: usize = read_be16(buf, 16);
        let page_size: u32 = if raw == 1 {
            65536
        } else {
            raw as u32
        };
        if !(page_size == 512 || page_size == 1024 || page_size == 2048 || page_size == 4096
            || page_size == 8192 || page_size == 16384 || page_size == 32768 || page_size
            == 65536) {
            let mut m = "invalid page size ".to_string();
            m.push_str(decimal(page_size as u64).as_str());
            return Err(Error::invalid_data(m));
        }
        let reserved: u8 = buf[20];
        if page_size - (reserved as u32) < 480 {
            let mut m = "reserved bytes ".to_string();
            m.push_str(decimal(reserved as u64).as_str());
            m.push_str(" leave an unusably small page");
            return Err(Error::invalid_data(m));
        }
        let change_counter: u32 = read_be32(buf, 24);
        let stored: u32 = read_be32(buf, 28);
        let page_count: u32 = if stored != 0 && read_be32(buf, 92) == change_counter {
            stored
        } else {
            (file_len / page_size as u64 % 0x1_0000_0000) as u32
        };
        Ok(
            DbHeader {
                page_size,
                reserved,
                change_counter,
                page_count,
                freelist_head: read_be32(buf, 32),
                freelist_count: read_be32(buf, 36),
                text_encoding: read_be32(buf, 56),
                largest_root_btree: read_be32(buf, 52),
            },
        )
    }
}

/// What a page source holds: its header, and what reading each page number gives.
pub struct Pages {
    pub header: DbHeader,
    pub read: spec_fn(u32) -> Result<Seq<u8>, ErrorView>,
}

/// Page-granular read access for live files and snapshots alike.
pub trait PageSource {
    /// The source is in order.
    spec fn wf(&self) -> bool;

    /// The header and the pages.
    spec fn pages(&self) -> Pages;

    /// The page numbers that were asked for so far, in order.
    spec fn reads(&self) -> Seq<u32>;

    fn header(&self) -> (h: &DbHeader)
        requires
            self.wf(),
        ensures
            *h == self.pages().header,
            h.wf(),
    ;

    /// Reads page `pgno`, counted from 1.
    fn page(&mut self, pgno: u32) -> (r: Result<Vec<u8>, Error>)
        requires
            old(self).wf(),
        ensures
            final(self).wf(),
            final(self).pages() == old(self).pages(),
            final(self).reads() == old(self).reads().push(pgno),
            match r {
                Ok(bytes) => (old(self).pages().read)(pgno) == Ok::<Seq<u8>, ErrorView>(bytes@),
                Err(e) => (old(self).pages().read)(pgno) == Err::<Seq<u8>, ErrorView>(e@),
            },
    ;

    fn page_size(&self) -> (n: u32)
        requires
            self.wf(),
        ensures
            n == self.pages().header.page_size,
    {
        self.header().page_size
    }

    fn page_count(&self) -> (n: u32)
        requires
            self.wf(),
        ensures
            n == self.pages().header.page_count,
    {
        self.header().page_count
    }
}

/// What is said of a page number outside of the database.
pub open spec fn page_out_of_range(pgno: u32, page_count: u32) -> ErrorView {
    invalid_data(
        "page "@ + dec(pgno as nat) + " out of range (1..="@ + dec(page_count as nat) + ")"@,
    )
}

/// Makes the error for a page number outside of the database.
pub fn page_range_error(pgno: u32, page_count: u32) -> (e: Error)
    ensures
        e@ == page_out_of_range(pgno, page_count),
{
    let mut m = "page ".to_string();
    m.push_str(decimal(pgno as u64).as_str());
    m.push_str(" out of range (1..=");
    m.push_str(decimal(page_count as u64).as_str());
    m.push_str(")");
    Error::invalid_data(m)
}

/// A live database file: where it lies, and its bytes.
pub struct DbFile {
    pub path: String,
    pub bytes: Vec<u8>,
    pub header: DbHeader,
    /// The page numbers that were asked for so far.
    pub asked: Ghost<Seq<u32>>,
}

/// `a` and `b` are the same file, whatever was read of each.
pub open spec fn same_file(a: DbFile, b: DbFile) -> bool {
    a.path == b.path && a.bytes == b.bytes && a.header == b.header
}

/// Between `before` and `after`, only pages of a database of `page_count` pages were asked
/// for, and none twice; so no more than there are.
pub open spec fn each_read_once(before: Seq<u32>, after: Seq<u32>, page_count: u32) -> bool {
    &&& before.len() <= after.len() <= before.len() + page_count
    &&& after.take(before.len() as int) == before
    &&& forall|i: int| before.len() <= i < after.len() ==> 1 <= #[trigger] after[i] <= page_count
    &&& forall|i: int, j: int| before.len() <= i < j < after.len() ==> after[i] != after[j]
}

/// Between `before` and `after`, only pages of a database of `page_count` pages were asked
/// for, and no more than there are.
pub open spec fn few_reads(before: Seq<u32>, after: Seq<u32>, page_count: u32) -> bool {
    &&& before.len() <= after.len() <= before.len() + page_count
    &&& after.take(before.len() as int) == before
    &&& forall|i: int| before.len() <= i < after.len() ==> 1 <= #[trigger] after[i] <= page_count
}

/// Page `pgno` of a file that holds `bytes`.
pub open spec fn file_page(bytes: Seq<u8>, page_size: int, pgno: int) -> Seq<u8> {
    bytes.subrange((pgno - 1) * page_size, pgno * page_size)
}

/// A file that holds `bytes` and has the header `h`, as a source of pages.
pub open spec fn file_source(bytes: Seq<u8>, h: DbHeader) -> Pages {
    Pages {
        header: h,
        read: |pgno: u32|
            if pgno == 0 || pgno > h.page_count {
                Err(page_out_of_range(pgno, h.page_count))
            } else {
                Ok(file_page(bytes, h.page_size as int, pgno as int))
            },
    }
}

/// The header of the database file at `path` that holds `bytes`, or why it cannot be opened.
pub open spec fn open_file(path: Seq<char>, bytes: Seq<u8>) -> Result<DbHeader, ErrorView> {
    if bytes.len() < HEADER_LEN {
        Err(invalid_data(path + ": too small to be a SQLite database"@))
    } else {
        match header_of(bytes.take(HEADER_LEN as int), bytes.len()) {
            Err(e) => Err(ErrorView { kind: e.kind, message: path + ": "@ + e.message }),
            Ok(h) => if bytes.len() < h.page_size * h.page_count {
                Err(
                    invalid_data(
                        path + ": truncated ("@ + dec(bytes.len()) + " bytes < "@ + dec(
                            h.page_count as nat,
                        ) + " pages x "@ + dec(h.page_size as nat) + " bytes)"@,
                    ),
                )
            } else {
                Ok(h)
            },
        }
    }
}

impl DbFile {
    /// Opens the database file at `path`, whose content is `bytes`.
    pub fn open(path: &str, bytes: Vec<u8>) -> (r: Result<DbFile, Error>)
        ensures
            match r {
                Ok(db) => db.wf() && open_file(path@, bytes@) == Ok::<DbHeader, ErrorView>(
                    db.header,
                ) && db.path@ == path@ && db.bytes@ == bytes@ && db.reads() == Seq::<u32>::empty(),
                Err(e) => open_file(path@, bytes@) == Err::<DbHeader, ErrorView>(e@),
            },
    {
        if bytes.len() < HEADER_LEN {
            let mut m = path.to_string();
            m.push_str(": too small to be a SQLite database");
            return Err(Error::invalid_data(m));
        }
        let len: u64 = bytes.len() as u64;
        let head = slice_subrange(bytes.as_slice(), 0, HEADER_LEN);
        assert(head@ =~= bytes@.take(HEADER_LEN as int));
        let header = match DbHeader::parse(head, len) {
            Ok(h) => h,
            Err(e) => {
                let mut m = path.to_string();
                m.push_str(": ");
                m.push_str(e.message.as_str());
                return Err(Error { kind: e.kind, message: m });
            },
        };
        proof {
            assert(header.page_size * header.page_count <= 65536 * 0xffff_ffff)
                by (nonlinear_arith)
                requires
                    header.page_size <= 65536,
                    header.page_count <= 0xffff_ffff,
            ;
        }
        if len < header.page_size as u64 * header.page_count as u64 {
            let mut m = path.to_string();
            m.push_str(": truncated (");
            m.push_str(decimal(len).as_str());
            m.push_str(" bytes < ");
            m.push_str(decimal(header.page_count as u64).as_str());
            m.push_str(" pages x ");
            m.push_str(decimal(header.page_size as u64).as_str());
            m.push_str(" bytes)");
            return Err(Error::invalid_data(m));
        }
        Ok(DbFile { path: path.to_string(), bytes, header, asked: Ghost(Seq::empty()) })
    }
}

impl PageSource for DbFile {
    open spec fn wf(&self) -> bool {
        self.header.wf() && self.bytes@.len() >= self.header.page_size * self.header.page_count
    }

    open spec fn pages(&self) -> Pages {
        file_source(self.bytes@, self.header)
    }

    open spec fn reads(&self) -> Seq<u32> {
        self.asked@
    }

    fn header(&self) -> (h: &DbHeader) {
        &self.header
    }

    fn page(&mut self, pgno: u32) -> (r: Result<Vec<u8>, Error>)
        ensures
            same_file(*final(self), *old(self)),
    {
        self.asked = Ghost(self.asked@.push(pgno));
        if pgno == 0 || pgno > self.header.page_count {
            return Err(page_range_error(pgno, self.header.page_count));
        }
        let size: usize = self.header.page_size as usize;
        let len: usize = self.bytes.len();
        proof {
            assert(len >= size * self.header.page_count);
            let n = self.header.page_count as int;
            assert((pgno - 1) * size + size == pgno * size) by (nonlinear_arith);
            assert(0 <= (pgno - 1) * size && pgno * size <= n * size) by (nonlinear_arith)
                requires
                    1 <= pgno <= n,
                    size >= 0,
            ;
            assert(n * size == size * n) by (nonlinear_arith);
        }
        let start: usize = (pgno as usize - 1) * size;
        let page = slice_subrange(self.bytes.as_slice(), start, start + size);
        Ok(slice_to_vec(page))
    }
}

/// What the write-ahead log beside a database says.
#[derive(Debug, Clone, Copy, PartialEq, Eq, Structural)]
pub enum WalState {
    /// There is no log, or only its header: the main file is complete.
    Clean,
    /// The log holds frames that the main file may lack.
    Pending { frames: u64 },
}

/// The state of a write-ahead log of `wal_len` bytes, `None` standing for no log at all.
///
/// A log is a 32-byte header and frames of 24 bytes and a page each. Anything beyond the
/// header counts as at least one frame.
pub fn wal_state(wal_len: Option<u64>, page_size: u32) -> (s: WalState)
    ensures
        s == (match wal_len {
            None => WalState::Clean,
            Some(len) => if len <= 32 {
                WalState::Clean
            } else if (len - 32) / (24 + page_size) < 1 {
                WalState::Pending { frames: 1 }
            } else {
                WalState::Pending { frames: ((len - 32) / (24 + page_size)) as u64 }
            },
        }),
{
    match wal_len {
        None => WalState::Clean,
        Some(len) => {
            if len <= 32 {
                WalState::Clean
            } else {
                let frames: u64 = (len - 32) / (24 + page_size as u64);
                if frames < 1 {
                    WalState::Pending { frames: 1 }
                } else {
                    WalState::Pending { frames }
                }
            }
        },
    }
}

/// Whether a rollback journal of `journal_len` bytes, `None` standing for no journal at all,
/// means that a transaction is in flight or was interrupted.
pub fn hot_journal(journal_len: Option<u64>) -> (hot: bool)
    ensures
        hot == (journal_len matches Some(len) && len > 0),
{
    match journal_len {
        None => false,
        Some(len) => len > 0,
    }
}

/// The path of the file that lies beside `db_path` under the same name and `suffix`.
pub fn sidecar(db_path: &str, suffix: &str) -> (path: String)
    ensures
        path@ == db_path@ + suffix@,
{
    let mut path = db_path.to_string();
    path.push_str(suffix);
    path
}

} // verus!
