//! Little-endian fields in byte buffers: the building blocks of the value log
//! and sorted table formats.

use vstd::bytes::{
    lemma_auto_spec_u32_to_from_le_bytes, lemma_auto_spec_u64_to_from_le_bytes,
    spec_u32_from_le_bytes, spec_u32_to_le_bytes, spec_u64_from_le_bytes, spec_u64_to_le_bytes,
    u32_from_le_bytes, u32_to_le_bytes, u64_from_le_bytes, u64_to_le_bytes,
};
use vstd::prelude::*;
use vstd::slice::{slice_subrange, slice_to_vec};

verus! {

/// The `u32` stored little-endian in the four bytes of `s` from `at`.
pub open spec fn u32_at(s: Seq<u8>, at: int) -> u32 {
    spec_u32_from_le_bytes(s.subrange(at, at + 4))
}

/// The `u64` stored little-endian in the eight bytes of `s` from `at`.
pub open spec fn u64_at(s: Seq<u8>, at: int) -> u64 {
    spec_u64_from_le_bytes(s.subrange(at, at + 8))
}

/// The byte that stands for a flag.
pub open spec fn flag_byte(flag: bool) -> u8 {
    if flag {
        1
    } else {
        0
    }
}

/// Appends `src` to `dst`.
pub fn append_bytes(dst: &mut Vec<u8>, src: &[u8])
    ensures
        final(dst)@ == old(dst)@ + src@,
{
    let mut i: usize = 0;
    while i < src.len()
        invariant
            i <= src.len(),
            dst@ == old(dst)@ + src@.subrange(0, i as int),
        decreases src.len() - i,
    {
        dst.push(src[i]);
        assert(dst@ =~= old(dst)@ + src@.subrange(0, i + 1));
        i += 1;
    }
    assert(src@.subrange(0, i as int) =~= src@);
}

/// Appends `x` to `dst` as four little-endian bytes.
pub fn put_u32_le(dst: &mut Vec<u8>, x: u32)
    ensures
        final(dst)@ == old(dst)@ + spec_u32_to_le_bytes(x),
{
    let b = u32_to_le_bytes(x);
    append_bytes(dst, b.as_slice());
}

/// Appends `x` to `dst` as eight little-endian bytes.
pub fn put_u64_le(dst: &mut Vec<u8>, x: u64)
    ensures
        final(dst)@ == old(dst)@ + spec_u64_to_le_bytes(x),
{
    let b = u64_to_le_bytes(x);
    append_bytes(dst, b.as_slice());
}

/// Reads the little-endian `u32` at `at`.
pub fn read_u32_le(bytes: &[u8], at: usize) -> (x: u32)
    requires
        at + 4 <= bytes@.len(),
    ensures
        x == u32_at(bytes@, at as int),
{
    let total = bytes.len();
    assert(at + 4 <= total);
    u32_from_le_bytes(slice_subrange(bytes, at, at + 4))
}

/// Reads the little-endian `u64` at `at`.
pub fn read_u64_le(bytes: &[u8], at: usize) -> (x: u64)
    requires
        at + 8 <= bytes@.len(),
    ensures
        x == u64_at(bytes@, at as int),
{
    let total = bytes.len();
    assert(at + 8 <= total);
    u64_from_le_bytes(slice_subrange(bytes, at, at + 8))
}

/// A copy of the `len` bytes from `at`.
pub fn read_bytes(bytes: &[u8], at: usize, len: usize) -> (r: Vec<u8>)
    requires
        at + len <= bytes@.len(),
    ensures
        r@ == bytes@.subrange(at as int, at + len),
{
    let total = bytes.len();
    assert(at + len <= total);
    slice_to_vec(slice_subrange(bytes, at, at + len))
}

/// A `u32` written at the end of `prefix` is read back from there, whatever
/// follows it.
pub proof fn lemma_u32_round_trip(prefix: Seq<u8>, x: u32, suffix: Seq<u8>)
    ensures
        u32_at(prefix + spec_u32_to_le_bytes(x) + suffix, prefix.len() as int) == x,
{
    lemma_auto_spec_u32_to_from_le_bytes();
    let all = prefix + spec_u32_to_le_bytes(x) + suffix;
    assert(all.subrange(prefix.len() as int, prefix.len() as int + 4) =~= spec_u32_to_le_bytes(x));
}

/// A `u64` written at the end of `prefix` is read back from there, whatever
/// follows it.
pub proof fn lemma_u64_round_trip(prefix: Seq<u8>, x: u64, suffix: Seq<u8>)
    ensures
        u64_at(prefix + spec_u64_to_le_bytes(x) + suffix, prefix.len() as int) == x,
{
    lemma_auto_spec_u64_to_from_le_bytes();
    let all = prefix + spec_u64_to_le_bytes(x) + suffix;
    assert(all.subrange(prefix.len() as int, prefix.len() as int + 8) =~= spec_u64_to_le_bytes(x));
}

} // verus!
