//! PhoenixDB: an embedded key/value engine whose behaviour is proved.
//!
//! The crate holds the engine's data structures and rules as total functions
//! on plain values. Reading files, locking, timing and floating point live in
//! the application that surrounds it.

pub mod audit;
pub mod btree;
pub mod bytes;
pub mod checksum;
pub mod collection;
pub mod damage_laws;
pub mod database;
pub mod error;
pub mod interface;
pub mod interface_laws;
pub mod json;
pub mod lsm;
pub mod observability;
pub mod ordered;
pub mod overlay;
pub mod page;
pub mod page_cache;
pub mod page_pool;
pub mod pager;
pub mod prefix;
pub mod storage_laws;
pub mod txn;
pub mod wal;

pub use btree::check::TreeReport;
pub use btree::{BTree, FillFactor};
pub use database::{Database, Options, Stats};
pub use error::{Error, PhoenixStatus, Result};
pub use page::{MetaData, PAGE_SIZE};
pub use pager::Pager;
pub use prefix::prefix_successor;
pub use txn::Write;
