//! Storage engine.
//!
//! - [`page`]: fixed-size disk pages
//! - [`slotted_page`]: slotted-page layout on top of a raw page
//! - [`heap_file`]: the bookkeeping of a collection of pages in one file
//! - [`row`]: length-prefixed tuple serialization
//! - [`catalog`]: `_tables` / `_columns` system tables
//!
//! This module never depends on SQL.
pub mod catalog;
pub mod endian;
pub mod heap_file;
pub mod page;
pub mod row;
pub mod slotted_page;

pub use catalog::{ColumnDef, ColumnSchema, ColumnType, TableSchema};
pub use heap_file::PageAllocator;
pub use page::{Page, PageId, PAGE_SIZE};
pub use row::{deserialize, serialize, Value};
pub use slotted_page::SlottedPage;
