//! The log-structured merge tree: a write buffer, sorted tables, and the rules
//! that move entries between them.

pub mod bloom;
pub mod compact;
pub mod compaction;
pub mod edit;
pub mod engine;
pub mod entry;
pub mod files;
pub mod layout;
pub mod levels;
pub mod manifest;
pub mod memtable;
pub mod merge;
pub mod merge_laws;
pub mod picking;
pub mod reads;
pub mod recovery;
pub mod reopen;
pub mod sstable;
pub mod table_laws;
pub mod version;
