//! litegraft: branches, snapshots and diffs of SQLite database files.
//!
//! A database is hashed page by page into a content-addressed store, so a snapshot costs only
//! the pages that changed, a branch is a named pointer, a restored file is the same byte for
//! byte, and a diff can be attributed to the tables that own the differing pages.
//!
//! - [`dbfile`], [`record`], [`btree`]: the file format, and who owns each page
//! - [`sha256`], [`manifest`], [`paths`], [`store`], [`snapshot`]: what is stored, and how
//! - [`diff`], [`tally`]: comparing two states
//! - [`args`], [`cli`], [`commands`]: the command line and the commands
//! - [`error`], [`bytes`], [`text`], [`numerals`], [`calendar`], [`render`], [`order`],
//!   [`files`]: what all of these are made of
//! - [`roundtrip`], [`store_laws`], [`snapshot_laws`], [`commands::laws`]: what holds across
//!   functions
//! - [`format_laws`], [`btree::page_laws`], [`btree::tree_laws`], [`btree::owner_laws`],
//!   [`btree::schema_laws`]: what is read of a database, said of its bytes
//! - [`manifest_laws`], [`digest_laws`], [`ref_laws`], [`diff_laws`], [`commands::branch_laws`],
//!   [`commands::upkeep_laws`]: what the commands are for, said of the files of a store
//! - [`args_laws`], [`print_laws`], [`commands::report_laws`], [`commands::line_laws`]: what the
//!   words of a command line mean, and what is printed

pub mod args;
pub mod args_laws;
pub mod btree;
pub mod bytes;
pub mod calendar;
pub mod cli;
pub mod commands;
pub mod dbfile;
pub mod diff;
pub mod diff_laws;
pub mod digest_laws;
pub mod error;
pub mod files;
pub mod format_laws;
pub mod manifest;
pub mod manifest_laws;
pub mod numerals;
pub mod order;
pub mod paths;
pub mod print_laws;
pub mod record;
pub mod ref_laws;
pub mod render;
pub mod roundtrip;
pub mod sha256;
pub mod snapshot;
pub mod snapshot_laws;
pub mod store;
pub mod store_laws;
pub mod tally;
pub mod text;
