//! The log-structured storage layer.

pub mod bloom;
pub mod columns;
pub mod compaction;
pub mod encode;
pub mod engine;
pub mod error;
pub mod history;
pub mod memtable;
pub mod meta;
pub mod partition;
pub mod path;
pub mod slots;
pub mod sstable;
pub mod wal;
pub mod zone_map;
