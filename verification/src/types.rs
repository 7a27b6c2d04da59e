//! Type aliases shared across modules.

use vstd::prelude::*;

verus! {

pub type Key = Vec<u8>;

pub type Value = Vec<u8>;

pub type ValOffset = usize;

pub type CreationTime = u64;

pub type IsTombStone = bool;

pub type MemtableId = Vec<u8>;

pub type Duration = u64;

} // verus!
