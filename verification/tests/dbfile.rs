//! Database headers, files and the files beside them.

use litegraft::dbfile::hot_journal;
use litegraft::dbfile::sidecar;
use litegraft::dbfile::wal_state;
use litegraft::dbfile::DbFile;
use litegraft::dbfile::DbHeader;
use litegraft::dbfile::PageSource;
use litegraft::dbfile::WalState;
use litegraft::dbfile::HEADER_LEN;
use litegraft::dbfile::MAGIC;

/// Build a syntactically valid 100-byte header for parser tests.
fn header_bytes(page_size: u16, pages: u32) -> Vec<u8> {
    let mut h = vec![0u8; HEADER_LEN];
    h[0..16].copy_from_slice(&MAGIC);
    h[16..18].copy_from_slice(&page_size.to_be_bytes());
    h[18] = 1; // write version
    h[19] = 1; // read version
    h[21] = 64; // max payload fraction
    h[22] = 32; // min payload fraction
    h[23] = 32; // leaf payload fraction
    h[24..28].copy_from_slice(&7u32.to_be_bytes()); // change counter
    h[28..32].copy_from_slice(&pages.to_be_bytes()); // page count
    h[56..60].copy_from_slice(&1u32.to_be_bytes()); // UTF-8
    h[92..96].copy_from_slice(&7u32.to_be_bytes()); // version-valid-for
    h
}

#[test]
fn parses_a_wellformed_header() {
    let h = DbHeader::parse(&header_bytes(4096, 12), 12 * 4096).unwrap();
    assert_eq!(h.page_size, 4096);
    assert_eq!(h.page_count, 12);
    assert_eq!(h.text_encoding, 1);
    assert_eq!(h.usable_size(), 4096);
}

#[test]
fn magic_spells_the_format() {
    assert_eq!(&MAGIC, b"SQLite format 3\0");
}

#[test]
fn page_size_one_means_65536() {
    // 65536 does not fit in the 16-bit field; SQLite stores 1.
    let h = DbHeader::parse(&header_bytes(1, 2), 2 * 65536).unwrap();
    assert_eq!(h.page_size, 65536);
}

#[test]
fn rejects_wrong_magic_and_short_buffer() {
    let mut buf = header_bytes(4096, 1);
    buf[0] = b'X';
    let e = DbHeader::parse(&buf, 4096).unwrap_err();
    assert!(e.message().contains("magic"), "{}", e.message());
    assert!(
        DbHeader::parse(&[0u8; 50], 4096).is_err(),
        "50 bytes is not a header"
    );
    assert_eq!(
        DbHeader::parse(&[0u8; 50], 4096).unwrap_err().message(),
        "file too small for a SQLite header (50 bytes)"
    );
}

#[test]
fn rejects_non_power_of_two_page_size() {
    for bad_size in [0u16, 100, 513, 4095] {
        let mut buf = header_bytes(4096, 1);
        buf[16..18].copy_from_slice(&bad_size.to_be_bytes());
        assert!(
            DbHeader::parse(&buf, 4096).is_err(),
            "size {bad_size} accepted"
        );
        assert_eq!(
            DbHeader::parse(&buf, 4096).unwrap_err().message(),
            format!("invalid page size {bad_size}")
        );
    }
}

#[test]
fn accepts_every_page_size_of_the_format() {
    for size in [512u16, 1024, 2048, 4096, 8192, 16384, 32768] {
        let h = DbHeader::parse(&header_bytes(size, 1), size as u64).unwrap();
        assert_eq!(h.page_size, size as u32);
    }
}

#[test]
fn stale_header_page_count_falls_back_to_file_length() {
    // version-valid-for != change counter: the stored count is stale and
    // the real count must come from the file size.
    let mut buf = header_bytes(512, 3);
    buf[92..96].copy_from_slice(&6u32.to_be_bytes());
    let h = DbHeader::parse(&buf, 10 * 512).unwrap();
    assert_eq!(h.page_count, 10);
}

#[test]
fn reserved_bytes_shrink_usable_size() {
    let mut buf = header_bytes(4096, 1);
    buf[20] = 16;
    let h = DbHeader::parse(&buf, 4096).unwrap();
    assert_eq!(h.usable_size(), 4080);
}

#[test]
fn too_many_reserved_bytes_are_refused() {
    let mut buf = header_bytes(512, 1);
    buf[20] = 33;
    assert_eq!(
        DbHeader::parse(&buf, 512).unwrap_err().message(),
        "reserved bytes 33 leave an unusably small page"
    );
    buf[20] = 32;
    assert_eq!(DbHeader::parse(&buf, 512).unwrap().usable_size(), 480);
}

#[test]
fn sidecar_paths_append_suffix() {
    let p = sidecar("/data/app.db", "-wal");
    assert_eq!(p, "/data/app.db-wal");
}

#[test]
fn files_are_opened_page_by_page() {
    let mut bytes = header_bytes(512, 2);
    bytes.resize(1024, 0);
    bytes[512] = 42;
    let mut db = DbFile::open("x.db", bytes.clone()).unwrap();
    assert_eq!(db.page_size(), 512);
    assert_eq!(db.page_count(), 2);
    assert_eq!(db.page(1).unwrap(), bytes[0..512].to_vec());
    assert_eq!(db.page(2).unwrap(), bytes[512..1024].to_vec());
    assert_eq!(
        db.page(0).unwrap_err().message(),
        "page 0 out of range (1..=2)"
    );
    assert_eq!(
        db.page(3).unwrap_err().message(),
        "page 3 out of range (1..=2)"
    );
}

#[test]
fn truncated_and_foreign_files_are_refused() {
    let mut bytes = header_bytes(512, 3);
    bytes.resize(1024, 0);
    assert_eq!(
        DbFile::open("x.db", bytes).err().unwrap().message(),
        "x.db: truncated (1024 bytes < 3 pages x 512 bytes)"
    );
    assert_eq!(
        DbFile::open("x.db", vec![0; 99]).err().unwrap().message(),
        "x.db: too small to be a SQLite database"
    );
    assert_eq!(
        DbFile::open("x.db", vec![0; 200]).err().unwrap().message(),
        "x.db: not a SQLite database (bad magic)"
    );
}

#[test]
fn write_ahead_log_states() {
    assert_eq!(wal_state(None, 512), WalState::Clean);
    assert_eq!(wal_state(Some(0), 512), WalState::Clean);
    assert_eq!(wal_state(Some(32), 512), WalState::Clean);
    assert_eq!(wal_state(Some(33), 512), WalState::Pending { frames: 1 });
    assert_eq!(
        wal_state(Some(32 + 3 * 536), 512),
        WalState::Pending { frames: 3 }
    );
}

#[test]
fn journals_are_hot_unless_empty() {
    assert!(!hot_journal(None));
    assert!(!hot_journal(Some(0)));
    assert!(hot_journal(Some(1)));
}
