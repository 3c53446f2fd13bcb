//! B-tree walking and page attribution.
//!
//! A SQLite file is a forest of b-trees and some bookkeeping pages. The forest is walked
//! here, without any SQL engine, to tell which object each page belongs to. Every b-tree
//! page is read by its type byte and not by the schema, so tables without row ids, which
//! keep their rows in index pages, need nothing special.

pub mod links;
pub mod owner_laws;
pub mod owners;
pub mod page_laws;
pub mod reach;
pub mod schema;
pub mod schema_laws;
pub mod tree_laws;
pub mod walk;

pub use self::links::INTERIOR_INDEX;
pub use self::links::INTERIOR_TABLE;
pub use self::links::LEAF_INDEX;
pub use self::links::LEAF_TABLE;
pub use self::owners::attribute_pages;
pub use self::owners::freelist_pages;
pub use self::owners::lock_byte_page;
pub use self::owners::ptrmap_pages;
pub use self::owners::PageKind;
pub use self::owners::PageOwner;
pub use self::schema::read_schema;
pub use self::schema::SchemaObject;
pub use self::walk::walk_btree;
pub use self::walk::BtreePages;
