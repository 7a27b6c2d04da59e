//! Size-tiered buckets of sorted tables and the merge that compacts them.

pub mod bucket;
pub mod merge;
