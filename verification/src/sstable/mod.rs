//! Sorted tables: where they live, how they are laid out, how they are read.

pub mod sst;
pub mod table;
