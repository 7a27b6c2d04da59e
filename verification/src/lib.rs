//! An embedded, write-optimised key-value storage engine core.
//!
//! The engine is a log-structured merge tree with key/value separation: full
//! records live in an append-only value log, while memtables and sorted tables
//! hold only `key -> (value offset, creation time, tombstone)` entries.
//!
//! Everything in this crate is computation on plain values. Reading and
//! writing files is left to the caller: functions here produce the bytes to be
//! written and interpret the bytes that were read.

pub mod bloom_filter;
pub mod cfg;
pub mod clock;
pub mod codec;
pub mod compaction;
pub mod consts;
pub mod err;
pub mod filter_file;
pub mod key_range;
pub mod keys;
pub mod memtable;
pub mod names;
pub mod sparse_index;
pub mod sstable;
pub mod storage_engine;
pub mod types;
pub mod value_log;
