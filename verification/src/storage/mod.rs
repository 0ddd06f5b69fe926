//! The storage engine: records, the tables that hold them, and what runs over the tables.

pub mod backend;
pub mod bloom;
pub mod compaction;
pub mod compactor;
pub mod deeds;
pub mod engine;
pub mod frames;
pub mod idmap;
pub mod index;
pub mod iter;
pub mod laws;
pub mod layout;
pub mod listing;
pub mod memtable;
pub mod merge;
pub mod record;
pub mod sorted;
pub mod sstable;
pub mod upkeep;
pub mod wal;
pub mod whole;
