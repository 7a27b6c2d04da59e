//! The in-memory ordered table that absorbs writes before they are flushed.

pub mod index;
pub mod inmemory;
pub mod sealed;
