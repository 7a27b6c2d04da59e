//! Sizes, names and reserved keys shared by the whole engine.

use vstd::prelude::*;

verus! {

/// Bytes taken by a `u8` in the binary formats.
pub const SIZE_OF_U8: usize = 1;

/// Bytes taken by a `u32` in the binary formats.
pub const SIZE_OF_U32: usize = 4;

/// Bytes taken by a `u64` in the binary formats.
pub const SIZE_OF_U64: usize = 8;

/// Default capacity of a memtable, in bytes.
pub const WRITE_BUFFER_SIZE: usize = 1024;

/// Assumed average size of a memtable entry, used to size its Bloom filter.
pub const AVERAGE_ENTRY_SIZE: usize = 100;

/// Value written to the value log for a deleted key.
pub const TOMB_STONE_MARKER: u32 = 0;

/// First byte of every reserved key. User keys may not start with it.
pub const RESERVED_KEY_PREFIX: u8 = 0;

/// Whether `key` lies in the range reserved for the engine's own entries.
pub open spec fn is_reserved(key: Seq<u8>) -> bool {
    key.len() > 0 && key[0] == RESERVED_KEY_PREFIX
}

/// The reserved key under which the value log's head offset travels.
pub open spec fn head_entry_key() -> Seq<u8> {
    seq![0u8, 72u8, 69u8, 65u8, 68u8]
}

/// The reserved key under which the value log's tail offset travels.
pub open spec fn tail_entry_key() -> Seq<u8> {
    seq![0u8, 84u8, 65u8, 73u8, 76u8]
}

/// Length of both reserved keys.
pub const SENTINEL_KEY_LEN: usize = 5;

/// Whether `key` starts with the reserved prefix.
pub fn is_reserved_key(key: &[u8]) -> (r: bool)
    ensures
        r == is_reserved(key@),
{
    key.len() > 0 && key[0] == RESERVED_KEY_PREFIX
}

/// The `HEAD` sentinel key.
pub fn head_key() -> (r: Vec<u8>)
    ensures
        r@ == head_entry_key(),
        is_reserved(r@),
        r@.len() == SENTINEL_KEY_LEN,
{
    let mut k: Vec<u8> = Vec::new();
    k.push(RESERVED_KEY_PREFIX);
    k.push(72u8);
    k.push(69u8);
    k.push(65u8);
    k.push(68u8);
    assert(k@ =~= head_entry_key());
    k
}

/// The `TAIL` sentinel key.
pub fn tail_key() -> (r: Vec<u8>)
    ensures
        r@ == tail_entry_key(),
        is_reserved(r@),
        r@.len() == SENTINEL_KEY_LEN,
{
    let mut k: Vec<u8> = Vec::new();
    k.push(RESERVED_KEY_PREFIX);
    k.push(84u8);
    k.push(65u8);
    k.push(73u8);
    k.push(76u8);
    assert(k@ =~= tail_entry_key());
    k
}

} // verus!
