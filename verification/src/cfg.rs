//! The engine's configuration.

use crate::bloom_filter::{default_rate, FilterRate};
use crate::consts::WRITE_BUFFER_SIZE;
use vstd::prelude::*;

verus! {

/// Sealed memtables that may wait before the oldest is sent to be flushed.
pub const DEFAULT_MAX_WRITE_BUFFER_NUMBER: usize = 2;

/// Whether entries expire by default.
pub const DEFAULT_ENABLE_TTL: bool = false;

/// Time to live of an entry, in milliseconds: a year.
pub const DEFAULT_ENTRY_TTL_MILLIS: u64 = 31_536_000_000;

/// Time between two periodic compactions, in milliseconds: an hour.
pub const DEFAULT_COMPACTION_INTERVAL_MILLIS: u64 = 3_600_000;

/// Time for which a tombstone is kept, in milliseconds: a day.
pub const DEFAULT_TOMBSTONE_GC_GRACE_MILLIS: u64 = 86_400_000;

/// Lower edge of a bucket's size window, in percent of its average size.
pub const DEFAULT_SIZE_TIER_LOW_PERCENT: u64 = 50;

/// Upper edge of a bucket's size window, in percent of its average size.
pub const DEFAULT_SIZE_TIER_HIGH_PERCENT: u64 = 150;

/// Sorted tables that a bucket gathers before it is merged.
pub const DEFAULT_MIN_TIER_SSTABLES: usize = 4;

/// Every sparse-index entry covers this many records of the data file.
pub const DEFAULT_SPARSE_INTERVAL: usize = 128;

/// The engine's configuration.
#[derive(Clone, Copy, Debug)]
pub struct Config {
    pub false_positive_rate: FilterRate,
    pub write_buffer_size: usize,
    pub max_buffer_write_number: usize,
    pub enable_ttl: bool,
    pub entry_ttl_millis: u64,
    pub compaction_interval_millis: u64,
    pub tombstone_gc_grace_millis: u64,
    pub size_tier_low_percent: u64,
    pub size_tier_high_percent: u64,
    pub min_tier_sstables: usize,
    pub sparse_interval: usize,
}

/// The configuration that `Config::default` gives.
pub open spec fn default_config() -> Config {
    Config {
        false_positive_rate: default_rate(),
        write_buffer_size: WRITE_BUFFER_SIZE,
        max_buffer_write_number: DEFAULT_MAX_WRITE_BUFFER_NUMBER,
        enable_ttl: DEFAULT_ENABLE_TTL,
        entry_ttl_millis: DEFAULT_ENTRY_TTL_MILLIS,
        compaction_interval_millis: DEFAULT_COMPACTION_INTERVAL_MILLIS,
        tombstone_gc_grace_millis: DEFAULT_TOMBSTONE_GC_GRACE_MILLIS,
        size_tier_low_percent: DEFAULT_SIZE_TIER_LOW_PERCENT,
        size_tier_high_percent: DEFAULT_SIZE_TIER_HIGH_PERCENT,
        min_tier_sstables: DEFAULT_MIN_TIER_SSTABLES,
        sparse_interval: DEFAULT_SPARSE_INTERVAL,
    }
}

impl Default for Config {
    fn default() -> (r: Self)
        ensures
            r == default_config(),
    {
        Config {
            false_positive_rate: FilterRate::default(),
            write_buffer_size: WRITE_BUFFER_SIZE,
            max_buffer_write_number: DEFAULT_MAX_WRITE_BUFFER_NUMBER,
            enable_ttl: DEFAULT_ENABLE_TTL,
            entry_ttl_millis: DEFAULT_ENTRY_TTL_MILLIS,
            compaction_interval_millis: DEFAULT_COMPACTION_INTERVAL_MILLIS,
            tombstone_gc_grace_millis: DEFAULT_TOMBSTONE_GC_GRACE_MILLIS,
            size_tier_low_percent: DEFAULT_SIZE_TIER_LOW_PERCENT,
            size_tier_high_percent: DEFAULT_SIZE_TIER_HIGH_PERCENT,
            min_tier_sstables: DEFAULT_MIN_TIER_SSTABLES,
            sparse_interval: DEFAULT_SPARSE_INTERVAL,
        }
    }
}

} // verus!
