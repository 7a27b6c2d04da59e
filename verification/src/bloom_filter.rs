//! A Bloom filter over byte-string keys.
//!
//! The filter answers "possibly present" or "certainly absent". A key that was
//! added is never reported absent.

use crate::sstable::table::Table;
use vstd::multiset::Multiset;
use vstd::prelude::*;
use vstd::seq_lib::{to_multiset_build, to_multiset_contains, to_multiset_insert};

verus! {

/// How a filter is dimensioned for a target false-positive rate: the bits it
/// spends on each expected entry, in thousandths of a bit, and the number of
/// probes per key.
#[derive(Clone, Copy, Debug, PartialEq, Eq, Structural)]
pub struct FilterRate {
    pub millibits_per_entry: u32,
    pub no_of_hash_func: u32,
}

/// Bits per entry, in thousandths, for a false-positive rate of one in ten
/// thousand.
pub const DEFAULT_MILLIBITS_PER_ENTRY: u32 = 19171;

/// Probes per key for a false-positive rate of one in ten thousand.
pub const DEFAULT_NO_OF_HASH_FUNC: u32 = 13;

/// Dimensions for a false-positive rate of one in ten thousand.
pub open spec fn default_rate() -> FilterRate {
    FilterRate {
        millibits_per_entry: DEFAULT_MILLIBITS_PER_ENTRY,
        no_of_hash_func: DEFAULT_NO_OF_HASH_FUNC,
    }
}

impl Default for FilterRate {
    /// Dimensions for a false-positive rate of one in ten thousand.
    fn default() -> (r: Self)
        ensures
            r == default_rate(),
    {
        FilterRate {
            millibits_per_entry: DEFAULT_MILLIBITS_PER_ENTRY,
            no_of_hash_func: DEFAULT_NO_OF_HASH_FUNC,
        }
    }
}

pub const HASH_MULTIPLIER_A: u64 = 1099511628211;

pub const HASH_MULTIPLIER_B: u64 = 6364136223846793005;

pub const HASH_SEED_A: u64 = 14695981039346656037;

pub const HASH_SEED_B: u64 = 1442695040888963407;

/// One step of the hash: add the byte, then multiply, both modulo 2^64.
pub open spec fn hash_step(h: u64, b: u8, multiplier: u64) -> u64 {
    ((((h as int + b as int) % 0x1_0000_0000_0000_0000) * (multiplier as int))
        % 0x1_0000_0000_0000_0000) as u64
}

/// The hash of `key`, starting from `seed`.
pub open spec fn hash_of(key: Seq<u8>, seed: u64, multiplier: u64) -> u64
    decreases key.len(),
{
    if key.len() == 0 {
        seed
    } else {
        hash_step(hash_of(key.drop_last(), seed, multiplier), key.last(), multiplier)
    }
}

/// The position of the `i`-th probe for a key whose two hashes are `h1` and
/// `h2`, in a filter of `num_bits` bits: start at `h1` and step by `h2`.
pub open spec fn probe(h1: u64, h2: u64, num_bits: int, i: nat) -> int
    decreases i,
{
    if i == 0 {
        (h1 as int) % num_bits
    } else {
        (probe(h1, h2, num_bits, (i - 1) as nat) + (h2 as int) % num_bits) % num_bits
    }
}

/// The position of the `i`-th probe for `key`.
pub open spec fn probe_of(key: Seq<u8>, num_bits: int, i: nat) -> int {
    probe(
        hash_of(key, HASH_SEED_A, HASH_MULTIPLIER_A),
        hash_of(key, HASH_SEED_B, HASH_MULTIPLIER_B),
        num_bits,
        i,
    )
}

/// Every one of the first `k` probes for `key` finds its bit set.
pub open spec fn all_probes_set(bits: Seq<bool>, k: nat, key: Seq<u8>) -> bool {
    forall|i: nat| i < k ==> bits[#[trigger] probe_of(key, bits.len() as int, i)]
}

/// `after` is `before` with the first `k` probes for `key` set and no other
/// bit changed.
pub open spec fn probes_added(before: Seq<bool>, after: Seq<bool>, k: nat, key: Seq<u8>) -> bool {
    &&& after.len() == before.len()
    &&& forall|p: int|
        0 <= p < before.len() ==> (#[trigger] after[p] <==> (before[p] || exists|i: nat|
            i < k && probe_of(key, before.len() as int, i) == p))
}

/// The number of bits of a filter for `no_of_elements` entries at `rate`:
/// the entries times the bits per entry, rounded up, at least one and at most
/// what `usize` holds.
pub open spec fn filter_bits(rate: FilterRate, no_of_elements: usize) -> int {
    let exact = (no_of_elements as int * rate.millibits_per_entry as int + 999) / 1000;
    if exact < 1 {
        1
    } else if exact > usize::MAX {
        usize::MAX as int
    } else {
        exact
    }
}

/// Every probe position lies inside the filter.
pub proof fn lemma_probe_in_range(h1: u64, h2: u64, num_bits: int, i: nat)
    requires
        num_bits > 0,
    ensures
        0 <= probe(h1, h2, num_bits, i) < num_bits,
    decreases i,
{
    if i > 0 {
        lemma_probe_in_range(h1, h2, num_bits, (i - 1) as nat);
    }
}

/// Whether `path` names one of `tables`, going by their data files.
pub open spec fn is_listed(path: Option<Table>, tables: Seq<Table>) -> bool {
    path is Some && exists|i: int|
        0 <= i < tables.len() && (#[trigger] tables[i]).data_file_path@
            == path->0.data_file_path@
}

/// Those of `filters` that are tied to one of `tables`, in the order of
/// `filters`.
pub open spec fn filters_of(filters: Seq<BloomFilter>, tables: Seq<Table>) -> Seq<BloomFilter>
    decreases filters.len(),
{
    if filters.len() == 0 {
        Seq::empty()
    } else if is_listed(filters.last().sstable_path, tables) {
        filters_of(filters.drop_last(), tables).push(filters.last())
    } else {
        filters_of(filters.drop_last(), tables)
    }
}

/// The tables of those of `filters` that report `key` as possibly present, in
/// the order of `filters`.
pub open spec fn tables_admitting(filters: Seq<BloomFilter>, key: Seq<u8>) -> Seq<Table>
    decreases filters.len(),
{
    if filters.len() == 0 {
        Seq::empty()
    } else if filters.last().sstable_path is Some && filters.last().may_contain(key) {
        tables_admitting(filters.drop_last(), key).push(filters.last().sstable_path->0)
    } else {
        tables_admitting(filters.drop_last(), key)
    }
}

/// What `r` holds, reference by reference.
pub open spec fn filters_behind(r: Seq<&BloomFilter>) -> Seq<BloomFilter> {
    Seq::new(r.len(), |i: int| *r[i])
}

/// The hotness of the table that a filter is tied to; zero for a filter that
/// is tied to none.
pub open spec fn hotness_of(filter: BloomFilter) -> u64 {
    match filter.sstable_path {
        Some(table) => table.hotness,
        None => 0,
    }
}

/// No filter is followed by a hotter one.
pub open spec fn hotness_descending(filters: Seq<BloomFilter>) -> bool {
    forall|i: int, j: int|
        0 <= i < j < filters.len() ==> hotness_of(#[trigger] filters[i]) >= hotness_of(
            #[trigger] filters[j],
        )
}

/// A Bloom filter, optionally tied to the sorted table whose keys it holds.
#[derive(Debug)]
pub struct BloomFilter {
    pub sstable_path: Option<Table>,
    pub no_of_hash_func: u32,
    pub no_of_elements: usize,
    pub bit_vec: Vec<bool>,
}

impl Clone for BloomFilter {
    fn clone(&self) -> (r: Self)
        ensures
            r.sstable_path == self.sstable_path,
            r.no_of_hash_func == self.no_of_hash_func,
            r.no_of_elements == self.no_of_elements,
            r.bit_vec@ == self.bit_vec@,
    {
        let mut bits: Vec<bool> = Vec::new();
        let mut i: usize = 0;
        while i < self.bit_vec.len()
            invariant
                i <= self.bit_vec.len(),
                bits@ == self.bit_vec@.subrange(0, i as int),
            decreases self.bit_vec.len() - i,
        {
            bits.push(self.bit_vec[i]);
            assert(bits@ =~= self.bit_vec@.subrange(0, i + 1));
            i += 1;
        }
        assert(bits@ =~= self.bit_vec@);
        let path = match &self.sstable_path {
            Some(t) => Some(t.clone()),
            None => None,
        };
        BloomFilter {
            sstable_path: path,
            no_of_hash_func: self.no_of_hash_func,
            no_of_elements: self.no_of_elements,
            bit_vec: bits,
        }
    }
}

/// Computes the hash of `key` from `seed`.
pub fn hash_key(key: &[u8], seed: u64, multiplier: u64) -> (h: u64)
    ensures
        h == hash_of(key@, seed, multiplier),
{
    let mut h: u64 = seed;
    let mut i: usize = 0;
    while i < key.len()
        invariant
            i <= key.len(),
            h == hash_of(key@.subrange(0, i as int), seed, multiplier),
        decreases key.len() - i,
    {
        let sum: u128 = (h as u128 + key[i] as u128) % 0x1_0000_0000_0000_0000u128;
        assert(sum * multiplier <= 0xffff_ffff_ffff_ffff * 0xffff_ffff_ffff_ffff)
            by (nonlinear_arith)
            requires
                0 <= sum <= 0xffff_ffff_ffff_ffff,
                0 <= multiplier <= 0xffff_ffff_ffff_ffff,
        ;
        let wide: u128 = sum * (multiplier as u128);
        proof {
            let next = key@.subrange(0, i + 1);
            assert(next.drop_last() =~= key@.subrange(0, i as int));
            assert(next.last() == key@[i as int]);
        }
        h = (wide % 0x1_0000_0000_0000_0000u128) as u64;
        i += 1;
    }
    assert(key@.subrange(0, i as int) =~= key@);
    h
}

impl BloomFilter {
    /// The filter has at least one bit.
    pub open spec fn wf(&self) -> bool {
        self.bit_vec@.len() > 0
    }

    /// Whether the filter reports `key` as possibly present.
    pub open spec fn may_contain(&self, key: Seq<u8>) -> bool {
        all_probes_set(self.bit_vec@, self.no_of_hash_func as nat, key)
    }

    /// An empty filter for `no_of_elements` entries at `rate`.
    pub fn new(rate: FilterRate, no_of_elements: usize) -> (r: Self)
        ensures
            r.wf(),
            r.sstable_path is None,
            r.no_of_hash_func == rate.no_of_hash_func,
            r.no_of_elements == 0,
            r.bit_vec@.len() == filter_bits(rate, no_of_elements),
            forall|p: int| 0 <= p < r.bit_vec@.len() ==> !r.bit_vec@[p],
    {
        assert(no_of_elements as int * rate.millibits_per_entry as int <= 0xffff_ffff_ffff_ffff
            * 0xffff_ffff) by (nonlinear_arith)
            requires
                0 <= no_of_elements <= 0xffff_ffff_ffff_ffff,
                0 <= rate.millibits_per_entry <= 0xffff_ffff,
        ;
        let exact: u128 = (no_of_elements as u128 * rate.millibits_per_entry as u128 + 999) / 1000;
        let num_bits: usize = if exact < 1 {
            1
        } else if exact > usize::MAX as u128 {
            usize::MAX
        } else {
            exact as usize
        };
        let mut bits: Vec<bool> = Vec::new();
        let mut i: usize = 0;
        while i < num_bits
            invariant
                i <= num_bits,
                bits@.len() == i,
                forall|p: int| 0 <= p < i ==> !bits@[p],
            decreases num_bits - i,
        {
            bits.push(false);
            i += 1;
        }
        BloomFilter {
            sstable_path: None,
            no_of_hash_func: rate.no_of_hash_func,
            no_of_elements: 0,
            bit_vec: bits,
        }
    }

    /// Adds `key`: sets the bit of each of its probes.
    pub fn set(&mut self, key: &Vec<u8>)
        requires
            old(self).wf(),
        ensures
            final(self).wf(),
            probes_added(
                old(self).bit_vec@,
                final(self).bit_vec@,
                old(self).no_of_hash_func as nat,
                key@,
            ),
            final(self).no_of_hash_func == old(self).no_of_hash_func,
            final(self).sstable_path == old(self).sstable_path,
            final(self).no_of_elements == if old(self).no_of_elements == usize::MAX {
                usize::MAX
            } else {
                (old(self).no_of_elements + 1) as usize
            },
    {
        let n: usize = self.bit_vec.len();
        let h1: u64 = hash_key(key.as_slice(), HASH_SEED_A, HASH_MULTIPLIER_A);
        let h2: u64 = hash_key(key.as_slice(), HASH_SEED_B, HASH_MULTIPLIER_B);
        let step: u128 = h2 as u128 % n as u128;
        let mut pos: u128 = h1 as u128 % n as u128;
        let mut i: u32 = 0;
        while i < self.no_of_hash_func
            invariant
                n == old(self).bit_vec@.len(),
                n > 0,
                h1 == hash_of(key@, HASH_SEED_A, HASH_MULTIPLIER_A),
                h2 == hash_of(key@, HASH_SEED_B, HASH_MULTIPLIER_B),
                step == (h2 as int) % (n as int),
                i <= self.no_of_hash_func,
                pos == probe(h1, h2, n as int, i as nat),
                0 <= pos < n,
                self.no_of_hash_func == old(self).no_of_hash_func,
                self.sstable_path == old(self).sstable_path,
                self.no_of_elements == old(self).no_of_elements,
                probes_added(old(self).bit_vec@, self.bit_vec@, i as nat, key@),
            decreases self.no_of_hash_func - i,
        {
            let ghost before = self.bit_vec@;
            self.bit_vec.set(pos as usize, true);
            proof {
                let ghost here = pos as int;
                assert(probe_of(key@, n as int, i as nat) == here);
                assert forall|p: int| 0 <= p < n implies (#[trigger] self.bit_vec@[p] <==> (old(
                    self,
                ).bit_vec@[p] || exists|j: nat|
                    j < (i + 1) as nat && probe_of(key@, n as int, j) == p)) by {
                    if p == here {
                        assert((i as nat) < (i + 1) as nat && probe_of(key@, n as int, i as nat)
                            == p);
                    } else {
                        assert(self.bit_vec@[p] == before[p]);
                        if before[p] && !old(self).bit_vec@[p] {
                            let j = choose|j: nat| j < i as nat && probe_of(key@, n as int, j) == p;
                            assert(j < (i + 1) as nat);
                        }
                        if exists|j: nat| j < (i + 1) as nat && probe_of(key@, n as int, j) == p {
                            let j = choose|j: nat|
                                j < (i + 1) as nat && probe_of(key@, n as int, j) == p;
                            assert(j != i as nat);
                            assert(j < i as nat);
                        }
                    }
                }
                lemma_probe_in_range(h1, h2, n as int, (i + 1) as nat);
            }
            pos = (pos + step) % (n as u128);
            i += 1;
        }
        if self.no_of_elements < usize::MAX {
            self.no_of_elements = self.no_of_elements + 1;
        }
    }

    /// Whether `key` is possibly present: every probe finds its bit set.
    pub fn contains(&self, key: &Vec<u8>) -> (r: bool)
        requires
            self.wf(),
        ensures
            r == self.may_contain(key@),
    {
        let n: usize = self.bit_vec.len();
        let h1: u64 = hash_key(key.as_slice(), HASH_SEED_A, HASH_MULTIPLIER_A);
        let h2: u64 = hash_key(key.as_slice(), HASH_SEED_B, HASH_MULTIPLIER_B);
        let step: u128 = h2 as u128 % n as u128;
        let mut pos: u128 = h1 as u128 % n as u128;
        let mut i: u32 = 0;
        while i < self.no_of_hash_func
            invariant
                n == self.bit_vec@.len(),
                n > 0,
                h1 == hash_of(key@, HASH_SEED_A, HASH_MULTIPLIER_A),
                h2 == hash_of(key@, HASH_SEED_B, HASH_MULTIPLIER_B),
                step == (h2 as int) % (n as int),
                i <= self.no_of_hash_func,
                pos == probe(h1, h2, n as int, i as nat),
                0 <= pos < n,
                all_probes_set(self.bit_vec@, i as nat, key@),
            decreases self.no_of_hash_func - i,
        {
            if !self.bit_vec[pos as usize] {
                assert(probe_of(key@, n as int, i as nat) == pos);
                return false;
            }
            proof {
                assert forall|j: nat| j < (i + 1) as nat implies self.bit_vec@[#[trigger] probe_of(
                    key@,
                    n as int,
                    j,
                )] by {
                    if j == i as nat {
                        assert(probe_of(key@, n as int, j) == pos);
                    }
                }
                lemma_probe_in_range(h1, h2, n as int, (i + 1) as nat);
            }
            pos = (pos + step) % (n as u128);
            i += 1;
        }
        true
    }

    /// Whether the filter is tied to one of `tables`.
    pub fn is_tied_to_one_of(&self, tables: &Vec<Table>) -> (r: bool)
        ensures
            r == is_listed(self.sstable_path, tables@),
    {
        match &self.sstable_path {
            None => false,
            Some(t) => {
                let mut i: usize = 0;
                while i < tables.len()
                    invariant
                        i <= tables@.len(),
                        self.sstable_path == Some(*t),
                        forall|j: int|
                            0 <= j < i ==> (#[trigger] tables@[j]).data_file_path@
                                != t.data_file_path@,
                    decreases tables.len() - i,
                {
                    if tables[i].data_file_path == t.data_file_path {
                        assert(tables@[i as int].data_file_path@ == t.data_file_path@);
                        return true;
                    }
                    i += 1;
                }
                false
            },
        }
    }

    /// Those of `bloom_filters` that are tied to one of `sstables`.
    pub fn bloom_filters_within_key_range<'a>(
        bloom_filters: &'a Vec<BloomFilter>,
        sstables: &Vec<Table>,
    ) -> (r: Vec<&'a BloomFilter>)
        ensures
            filters_behind(r@) == filters_of(bloom_filters@, sstables@),
    {
        let mut out: Vec<&BloomFilter> = Vec::new();
        let mut i: usize = 0;
        while i < bloom_filters.len()
            invariant
                i <= bloom_filters@.len(),
                filters_behind(out@) == filters_of(bloom_filters@.subrange(0, i as int), sstables@),
            decreases bloom_filters.len() - i,
        {
            let filter = &bloom_filters[i];
            let ghost before = out@;
            proof {
                let next = bloom_filters@.subrange(0, i + 1);
                assert(next.drop_last() =~= bloom_filters@.subrange(0, i as int));
                assert(next.last() == bloom_filters@[i as int]);
            }
            if filter.is_tied_to_one_of(sstables) {
                out.push(filter);
                assert(filters_behind(out@) =~= filters_behind(before).push(*filter));
            }
            i += 1;
        }
        assert(bloom_filters@.subrange(0, i as int) =~= bloom_filters@);
        out
    }

    /// The tables of those of `bloom_filters` that report `key` as possibly
    /// present; `None` where there is none.
    pub fn sstables_within_key_range(bloom_filters: &Vec<&BloomFilter>, key: &Vec<u8>) -> (r: Option<
        Vec<Table>,
    >)
        requires
            forall|i: int| 0 <= i < bloom_filters@.len() ==> (#[trigger] bloom_filters@[i]).wf(),
        ensures
            r is Some <==> tables_admitting(filters_behind(bloom_filters@), key@).len() > 0,
            r matches Some(tables) ==> tables@ == tables_admitting(
                filters_behind(bloom_filters@),
                key@,
            ),
    {
        let ghost all = filters_behind(bloom_filters@);
        let mut out: Vec<Table> = Vec::new();
        let mut i: usize = 0;
        while i < bloom_filters.len()
            invariant
                i <= bloom_filters@.len(),
                all == filters_behind(bloom_filters@),
                forall|j: int| 0 <= j < bloom_filters@.len() ==> (#[trigger] bloom_filters@[j]).wf(),
                out@ == tables_admitting(all.subrange(0, i as int), key@),
            decreases bloom_filters.len() - i,
        {
            let filter = bloom_filters[i];
            proof {
                let next = all.subrange(0, i + 1);
                assert(next.drop_last() =~= all.subrange(0, i as int));
                assert(next.last() == all[i as int]);
                assert(all[i as int] == *bloom_filters@[i as int]);
            }
            if let Some(table) = &filter.sstable_path {
                if filter.contains(key) {
                    out.push(table.clone());
                }
            }
            i += 1;
        }
        assert(all.subrange(0, i as int) =~= all);
        if out.len() == 0 {
            None
        } else {
            Some(out)
        }
    }

    /// The hotness of the table that the filter is tied to; zero for a filter
    /// that is tied to none.
    pub fn hotness(&self) -> (r: u64)
        ensures
            r == hotness_of(*self),
    {
        match &self.sstable_path {
            Some(table) => table.get_hotness(),
            None => 0,
        }
    }

    /// Ties the filter to the table whose keys it holds.
    pub fn set_sstable_path(&mut self, path: Table)
        ensures
            final(self).sstable_path == Some(path),
            final(self).no_of_hash_func == old(self).no_of_hash_func,
            final(self).no_of_elements == old(self).no_of_elements,
            final(self).bit_vec == old(self).bit_vec,
    {
        self.sstable_path = Some(path);
    }

    /// The table that the filter is tied to, if any.
    pub fn get_sstable_path(&self) -> (r: &Option<Table>)
        ensures
            *r == self.sstable_path,
    {
        &self.sstable_path
    }
}

/// Reorders `filters` so that the filters of the hottest tables come first.
pub fn sort_by_hotness(filters: &mut Vec<BloomFilter>)
    ensures
        final(filters)@.to_multiset() == old(filters)@.to_multiset(),
        final(filters)@.len() == old(filters)@.len(),
        hotness_descending(final(filters)@),
{
    let mut sorted: Vec<BloomFilter> = Vec::new();
    proof {
        assert(sorted@.to_multiset().add(filters@.to_multiset()) =~= old(filters)@.to_multiset())
            by {
            broadcast use vstd::multiset::group_multiset_axioms;

            sorted@.to_multiset_ensures();
        }
    }
    while filters.len() > 0
        invariant
            sorted@.to_multiset().add(filters@.to_multiset()) == old(filters)@.to_multiset(),
            sorted@.len() + filters@.len() == old(filters)@.len(),
            hotness_descending(sorted@),
        decreases filters@.len(),
    {
        let ghost rest_before = filters@;
        let ghost sorted_before = sorted@;
        let next = filters.pop().unwrap();
        let heat = next.hotness();
        let mut at: usize = 0;
        while at < sorted.len() && sorted[at].hotness() > heat
            invariant
                at <= sorted@.len(),
                heat == hotness_of(next),
                forall|i: int| 0 <= i < at ==> hotness_of(#[trigger] sorted@[i]) > heat,
            decreases sorted@.len() - at,
        {
            at += 1;
        }
        sorted.insert(at, next);
        proof {
            broadcast use vstd::multiset::group_multiset_axioms;

            to_multiset_insert(sorted_before, at as int, next);
            assert(rest_before =~= filters@.push(next));
            to_multiset_build(filters@, next);
            assert(sorted@.to_multiset().add(filters@.to_multiset()) =~= sorted_before.to_multiset().add(
                rest_before.to_multiset(),
            ));
            assert forall|i: int, j: int| 0 <= i < j < sorted@.len() implies hotness_of(
                #[trigger] sorted@[i],
            ) >= hotness_of(#[trigger] sorted@[j]) by {
                let a = if i < at { i } else { i - 1 };
                let b = if j < at { j } else { j - 1 };
                if i != at && j != at {
                    assert(sorted@[i] == sorted_before[a]);
                    assert(sorted@[j] == sorted_before[b]);
                } else if i == at {
                    assert(sorted@[j] == sorted_before[b]);
                } else {
                    assert(sorted@[i] == sorted_before[a]);
                }
            }
        }
    }
    proof {
        broadcast use vstd::multiset::group_multiset_axioms;

        filters@.to_multiset_ensures();
        assert(filters@.to_multiset() =~= Multiset::<BloomFilter>::empty());
        assert(sorted@.to_multiset() =~= old(filters)@.to_multiset());
    }
    std::mem::swap(filters, &mut sorted);
}

/// What holds of every filter before a reordering holds of every filter after
/// it: each filter of the new order is a filter of the old one.
pub proof fn lemma_same_filters(before: Seq<BloomFilter>, after: Seq<BloomFilter>)
    requires
        after.to_multiset() == before.to_multiset(),
    ensures
        forall|i: int| 0 <= i < after.len() ==> before.contains(#[trigger] after[i]),
{
    assert forall|i: int| 0 <= i < after.len() implies before.contains(#[trigger] after[i]) by {
        to_multiset_contains(after, after[i]);
        to_multiset_contains(before, after[i]);
        assert(after.contains(after[i]));
    }
}

/// A key that was added is reported as possibly present, and so is every key
/// that was reported so before.
pub proof fn lemma_set_then_contains(before: BloomFilter, after: BloomFilter, key: Seq<u8>)
    requires
        before.wf(),
        after.no_of_hash_func == before.no_of_hash_func,
        probes_added(before.bit_vec@, after.bit_vec@, before.no_of_hash_func as nat, key),
    ensures
        after.may_contain(key),
        forall|other: Seq<u8>| before.may_contain(other) ==> after.may_contain(other),
{
    let n = before.bit_vec@.len() as int;
    let k = before.no_of_hash_func as nat;
    assert forall|i: nat| i < k implies after.bit_vec@[#[trigger] probe_of(key, n, i)] by {
        lemma_probe_in_range(
            hash_of(key, HASH_SEED_A, HASH_MULTIPLIER_A),
            hash_of(key, HASH_SEED_B, HASH_MULTIPLIER_B),
            n,
            i,
        );
    }
    assert forall|other: Seq<u8>| before.may_contain(other) implies after.may_contain(other) by {
        assert forall|i: nat| i < k implies after.bit_vec@[#[trigger] probe_of(other, n, i)] by {
            lemma_probe_in_range(
                hash_of(other, HASH_SEED_A, HASH_MULTIPLIER_A),
                hash_of(other, HASH_SEED_B, HASH_MULTIPLIER_B),
                n,
                i,
            );
            assert(before.bit_vec@[probe_of(other, n, i)]);
        }
    }
}

} // verus!
