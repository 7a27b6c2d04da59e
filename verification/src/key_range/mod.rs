//! The key envelope of every live sorted table, for pruning reads.

pub mod range;
