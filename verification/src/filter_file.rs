//! The file form of a Bloom filter, to be kept beside a sorted table.
//!
//! A filter is laid out as `num_bits:u64 | num_hashes:u32 | bit_array`,
//! integers little-endian. The bit array packs eight bits into a byte, the
//! first bit as the lowest; the bits that pad the last byte are zero.

use crate::bloom_filter::BloomFilter;
use crate::codec::{put_u32_le, put_u64_le, read_u32_le, read_u64_le, u32_at, u64_at};
use vstd::bytes::{
    lemma_auto_spec_u32_to_from_le_bytes, lemma_auto_spec_u64_to_from_le_bytes,
    spec_u32_to_le_bytes, spec_u64_to_le_bytes,
};
use vstd::prelude::*;

verus! {

/// Bytes of a filter file before its bit array.
pub const FILTER_HEADER_LEN: usize = 12;

/// The bit at position `i` as a number; zero behind the end of `bits`.
pub open spec fn bit_at(bits: Seq<bool>, i: int) -> u8 {
    if 0 <= i < bits.len() && bits[i] {
        1
    } else {
        0
    }
}

/// The byte that packs the first `k` of the eight bits from position `8 * j`
/// on, the first bit as the lowest.
pub open spec fn packed_upto(bits: Seq<bool>, j: int, k: nat) -> u8
    decreases k,
{
    if k == 0 {
        0
    } else {
        packed_upto(bits, j, (k - 1) as nat) | (bit_at(bits, 8 * j + k - 1) << ((k - 1) as u8))
    }
}

/// The bit array of `bits`: one byte for every eight bits.
pub open spec fn packed(bits: Seq<bool>) -> Seq<u8> {
    Seq::new(((bits.len() + 7) / 8) as nat, |j: int| packed_upto(bits, j, 8))
}

/// The bit at position `i` of a bit array.
pub open spec fn unpacked(bytes: Seq<u8>, i: int) -> bool {
    (bytes[i / 8] >> ((i % 8) as u8)) & 1 == 1
}

/// The bytes of the file of a filter with these bits and this many probes.
pub open spec fn filter_bytes(bits: Seq<bool>, no_of_hash_func: u32) -> Seq<u8> {
    spec_u64_to_le_bytes(bits.len() as u64) + spec_u32_to_le_bytes(no_of_hash_func) + packed(bits)
}

/// Whether `bytes` are the file of a filter: a header, at least one bit, and
/// a bit array of just the length that the number of bits calls for.
pub open spec fn is_filter_file(bytes: Seq<u8>) -> bool {
    &&& bytes.len() >= FILTER_HEADER_LEN
    &&& 1 <= u64_at(bytes, 0) <= usize::MAX
    &&& bytes.len() - FILTER_HEADER_LEN == (u64_at(bytes, 0) + 7) / 8
}

/// Setting one more bit of a byte leaves the lower bits as they are and uses
/// no higher bit.
pub proof fn lemma_pack_step(x: u8, c: u8, k: u8, m: u8)
    requires
        k < 8,
        m < 8,
        c <= 1,
        x >> k == 0,
    ensures
        ((x | (c << k)) >> m) & 1 == if m == k {
            c
        } else {
            (x >> m) & 1
        },
        k < 7 ==> (x | (c << k)) >> ((k + 1) as u8) == 0,
{
    assert(((x | (c << k)) >> m) & 1 == if m == k {
        c
    } else {
        (x >> m) & 1
    }) by (bit_vector)
        requires
            k < 8,
            m < 8,
            c <= 1,
            x >> k == 0,
    ;
    if k < 7 {
        let k1 = (k + 1) as u8;
        assert((x | (c << k)) >> k1 == 0) by (bit_vector)
            requires
                k < 7,
                k1 == k + 1,
                c <= 1,
                x >> k == 0,
        ;
    }
}

/// A packed byte gives back the bits that went into it.
pub proof fn lemma_packed_bits(bits: Seq<bool>, j: int, k: nat, m: u8)
    requires
        k <= 8,
        m < 8,
    ensures
        k < 8 ==> packed_upto(bits, j, k) >> (k as u8) == 0,
        (packed_upto(bits, j, k) >> m) & 1 == if m < k {
            bit_at(bits, 8 * j + m)
        } else {
            0
        },
    decreases k,
{
    if k == 0 {
        assert(0u8 >> 0u8 == 0) by (bit_vector);
        assert((0u8 >> m) & 1 == 0) by (bit_vector);
    } else {
        let x = packed_upto(bits, j, (k - 1) as nat);
        let c = bit_at(bits, 8 * j + k - 1);
        let kk = (k - 1) as u8;
        lemma_packed_bits(bits, j, (k - 1) as nat, m);
        lemma_pack_step(x, c, kk, m);
    }
}

/// The bit array of a run of bits gives back every bit of the run.
pub proof fn lemma_pack_round_trip(bits: Seq<bool>, i: int)
    requires
        0 <= i < bits.len(),
    ensures
        unpacked(packed(bits), i) == bits[i],
{
    let j = i / 8;
    let m = (i % 8) as u8;
    lemma_packed_bits(bits, j, 8, m);
    assert(8 * j + m == i);
}

impl BloomFilter {
    /// The file form of the filter: its number of bits, its number of
    /// probes and its bit array. The table it is tied to is not part of it.
    pub fn to_bytes(&self) -> (r: Vec<u8>)
        ensures
            r@ == filter_bytes(self.bit_vec@, self.no_of_hash_func),
    {
        let n = self.bit_vec.len();
        let mut out: Vec<u8> = Vec::new();
        put_u64_le(&mut out, n as u64);
        put_u32_le(&mut out, self.no_of_hash_func);
        let ghost header = out@;
        let ghost bits = self.bit_vec@;
        let mut j: usize = 0;
        let count = n / 8 + if n % 8 == 0 {
            0
        } else {
            1
        };
        assert(count == (n + 7) / 8);
        while j < count
            invariant
                j <= count,
                count == (n + 7) / 8,
                n == bits.len(),
                bits == self.bit_vec@,
                out@.len() == header.len() + j,
                forall|i: int| 0 <= i < header.len() ==> out@[i] == header[i],
                forall|b: int| 0 <= b < j ==> out@[header.len() + b] == packed_upto(bits, b, 8),
            decreases count - j,
        {
            let mut byte: u8 = 0;
            let mut k: u8 = 0;
            while k < 8
                invariant
                    k <= 8,
                    j < count,
                    count == (n + 7) / 8,
                    n == bits.len(),
                    bits == self.bit_vec@,
                    byte == packed_upto(bits, j as int, k as nat),
                decreases 8 - k,
            {
                let at = j * 8 + k as usize;
                if at < n && self.bit_vec[at] {
                    byte = byte | (1u8 << k);
                } else {
                    assert(byte | (0u8 << k) == byte) by (bit_vector);
                }
                k += 1;
            }
            let ghost before = out@;
            out.push(byte);
            proof {
                assert forall|b: int| 0 <= b < j + 1 implies out@[header.len() + b] == packed_upto(
                    bits,
                    b,
                    8,
                ) by {
                    if b < j {
                        assert(out@[header.len() + b] == before[header.len() + b]);
                    }
                }
            }
            j += 1;
        }
        proof {
            assert(out@ =~= header + packed(bits));
        }
        out
    }

    /// The filter that a file holds, tied to no table yet; `None` where the
    /// bytes are not the file of a filter.
    pub fn from_bytes(bytes: &[u8]) -> (r: Option<Self>)
        ensures
            r is Some <==> is_filter_file(bytes@),
            r matches Some(filter) ==> {
                &&& filter.wf()
                &&& filter.sstable_path is None
                &&& filter.no_of_elements == 0
                &&& filter.no_of_hash_func == u32_at(bytes@, 8)
                &&& filter.bit_vec@.len() == u64_at(bytes@, 0)
                &&& forall|i: int|
                    0 <= i < filter.bit_vec@.len() ==> filter.bit_vec@[i] == unpacked(
                        bytes@.subrange(FILTER_HEADER_LEN as int, bytes@.len() as int),
                        i,
                    )
            },
    {
        let total = bytes.len();
        if total < FILTER_HEADER_LEN {
            return None;
        }
        let raw_bits = read_u64_le(bytes, 0);
        let no_of_hash_func = read_u32_le(bytes, 8);
        if raw_bits < 1 || raw_bits > usize::MAX as u64 {
            return None;
        }
        let n = raw_bits as usize;
        let count = n / 8 + if n % 8 == 0 {
            0
        } else {
            1
        };
        assert(count == (n + 7) / 8);
        if total - FILTER_HEADER_LEN != count {
            return None;
        }
        let ghost body = bytes@.subrange(FILTER_HEADER_LEN as int, bytes@.len() as int);
        let mut bit_vec: Vec<bool> = Vec::new();
        let mut i: usize = 0;
        while i < n
            invariant
                i <= n,
                total == bytes@.len(),
                total - FILTER_HEADER_LEN == (n + 7) / 8,
                body == bytes@.subrange(FILTER_HEADER_LEN as int, bytes@.len() as int),
                bit_vec@.len() == i,
                forall|b: int| 0 <= b < i ==> bit_vec@[b] == unpacked(body, b),
            decreases n - i,
        {
            let byte = bytes[FILTER_HEADER_LEN + i / 8];
            let shift = (i % 8) as u8;
            assert(body[i as int / 8] == byte);
            bit_vec.push((byte >> shift) & 1 == 1);
            i += 1;
        }
        Some(BloomFilter { sstable_path: None, no_of_hash_func, no_of_elements: 0, bit_vec })
    }
}

/// A filter written to a file is read back bit by bit: the file of a filter
/// is the file of a filter, and the filter it holds has the same number of
/// probes and the same bits.
pub proof fn lemma_filter_round_trip(bits: Seq<bool>, no_of_hash_func: u32)
    requires
        1 <= bits.len() <= usize::MAX,
    ensures
        is_filter_file(filter_bytes(bits, no_of_hash_func)),
        u64_at(filter_bytes(bits, no_of_hash_func), 0) == bits.len(),
        u32_at(filter_bytes(bits, no_of_hash_func), 8) == no_of_hash_func,
        forall|i: int|
            0 <= i < bits.len() ==> unpacked(
                filter_bytes(bits, no_of_hash_func).subrange(
                    FILTER_HEADER_LEN as int,
                    filter_bytes(bits, no_of_hash_func).len() as int,
                ),
                i,
            ) == bits[i],
{
    lemma_auto_spec_u32_to_from_le_bytes();
    lemma_auto_spec_u64_to_from_le_bytes();
    let all = filter_bytes(bits, no_of_hash_func);
    let a = spec_u64_to_le_bytes(bits.len() as u64);
    let b = spec_u32_to_le_bytes(no_of_hash_func);
    assert(all.subrange(0, 8) =~= a);
    assert(all.subrange(8, 12) =~= b);
    assert(all.subrange(FILTER_HEADER_LEN as int, all.len() as int) =~= packed(bits));
    assert forall|i: int| 0 <= i < bits.len() implies unpacked(packed(bits), i) == bits[i] by {
        lemma_pack_round_trip(bits, i);
    }
}

} // verus!
