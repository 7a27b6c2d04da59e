//! The memtable: an ordered map from key to value-log position, gated by a
//! Bloom filter, with a running count of the bytes it would take on disk.

use crate::bloom_filter::{
    default_rate, lemma_set_then_contains, probes_added, BloomFilter, FilterRate,
};
use crate::clock::{is_alphanumeric, now_millis, random_alphanumeric};
use crate::consts::{AVERAGE_ENTRY_SIZE, SIZE_OF_U32, SIZE_OF_U64, SIZE_OF_U8, WRITE_BUFFER_SIZE};
use crate::err::StorageEngineError;
use crate::keys::{clone_key, key_le};
use crate::memtable::index::{
    empty_index, index_back, index_clear, index_contents, index_entries, index_front, index_get,
    index_insert, index_new, lists_in_order, value_of, IndexValue,
};
use crate::storage_engine::storage::SizeUnit;
use crossbeam_skiplist::SkipMap;
use vstd::prelude::*;

verus! {

/// Bytes that an entry takes besides its key: the key length, the creation
/// time and the tombstone flag.
pub const ENTRY_OVERHEAD: usize = 13;

/// Length of a memtable identifier.
pub const TABLE_ID_LEN: usize = 10;

/// An index entry: where the record of `key` starts in the value log, when it
/// was created and whether it is a tombstone.
#[derive(Debug, PartialEq, PartialOrd)]
pub struct Entry<K, V> {
    pub key: K,
    pub val_offset: V,
    pub created_at: u64,
    pub is_tombstone: bool,
}

impl Clone for Entry<Vec<u8>, usize> {
    fn clone(&self) -> (r: Self)
        ensures
            r.key@ == self.key@,
            r.val_offset == self.val_offset,
            r.created_at == self.created_at,
            r.is_tombstone == self.is_tombstone,
    {
        Entry {
            key: clone_key(&self.key),
            val_offset: self.val_offset,
            created_at: self.created_at,
            is_tombstone: self.is_tombstone,
        }
    }
}

/// Whether an entry created at `created_at` with `ttl` milliseconds to live
/// has expired at `now`.
pub open spec fn expired_at(created_at: u64, ttl: u64, now: u64) -> bool {
    now > created_at + ttl
}

impl Entry<Vec<u8>, usize> {
    pub fn new(key: Vec<u8>, val_offset: usize, created_at: u64, is_tombstone: bool) -> (r: Self)
        ensures
            r.key == key,
            r.val_offset == val_offset,
            r.created_at == created_at,
            r.is_tombstone == is_tombstone,
    {
        Entry { key, val_offset, created_at, is_tombstone }
    }

    /// Whether the entry has outlived `ttl` milliseconds at the time `now`.
    pub fn has_expired_at(&self, ttl: u64, now: u64) -> (r: bool)
        ensures
            r == expired_at(self.created_at, ttl, now),
    {
        match self.created_at.checked_add(ttl) {
            Some(deadline) => now > deadline,
            None => false,
        }
    }

    /// Whether the entry has outlived `ttl` milliseconds by the wall clock.
    /// An entry whose deadline lies beyond the range of the clock never expires.
    pub fn has_expired(&self, ttl: u64) -> (r: bool)
        ensures
            self.created_at + ttl >= u64::MAX ==> !r,
    {
        let now = now_millis();
        self.has_expired_at(ttl, now)
    }
}

/// The memtable.
#[derive(Debug)]
pub struct InMemoryTable {
    pub index: SkipMap<Vec<u8>, IndexValue>,
    pub bloom_filter: BloomFilter,
    pub false_positive_rate: FilterRate,
    pub size: usize,
    pub size_unit: SizeUnit,
    pub capacity: usize,
    pub created_at: u64,
    pub read_only: bool,
}

impl View for InMemoryTable {
    type V = Map<Seq<u8>, IndexValue>;

    /// The entries of the table, by key.
    open spec fn view(&self) -> Map<Seq<u8>, IndexValue> {
        index_contents(self.index)
    }
}

impl InMemoryTable {
    /// The filter is usable and reports every key of the table as possibly
    /// present.
    pub open spec fn wf(&self) -> bool {
        &&& self.bloom_filter.wf()
        &&& forall|k: Seq<u8>| #[trigger] self@.dom().contains(k) ==> self.bloom_filter.may_contain(k)
    }

    /// What a lookup of `key` finds.
    pub open spec fn lookup(&self, key: Seq<u8>) -> Option<IndexValue> {
        if self@.dom().contains(key) {
            Some(self@[key])
        } else {
            None
        }
    }

    /// Whether one more entry with a key of `key_len` bytes reaches the
    /// capacity.
    pub open spec fn full_for(&self, key_len: usize) -> bool {
        self.size + key_len + ENTRY_OVERHEAD >= self.capacity
    }

    /// Every field but the index, the filter and the size is as in `other`.
    pub open spec fn same_settings(&self, other: &InMemoryTable) -> bool {
        &&& self.false_positive_rate == other.false_positive_rate
        &&& self.size_unit == other.size_unit
        &&& self.capacity == other.capacity
        &&& self.created_at == other.created_at
        &&& self.read_only == other.read_only
    }

    /// An empty table with the default capacity and false-positive rate.
    pub fn new() -> (r: Self)
        ensures
            r.wf(),
            r@ == empty_index(),
            r.size == 0,
            r.capacity == WRITE_BUFFER_SIZE,
            r.size_unit == SizeUnit::Bytes,
            r.false_positive_rate == default_rate(),
            !r.read_only,
    {
        Self::with_specified_capacity_and_rate(
            SizeUnit::Bytes,
            WRITE_BUFFER_SIZE,
            FilterRate::default(),
        )
    }

    /// An empty table of `capacity` units of `size_unit`, with a filter
    /// dimensioned for the entries that fit at `false_positive_rate`. The
    /// capacity is kept in bytes.
    pub fn with_specified_capacity_and_rate(
        size_unit: SizeUnit,
        capacity: usize,
        false_positive_rate: FilterRate,
    ) -> (r: Self)
        requires
            capacity > 0,
            capacity * size_unit.factor() <= usize::MAX,
        ensures
            r.wf(),
            r@ == empty_index(),
            r.size == 0,
            r.capacity == capacity * size_unit.factor(),
            r.size_unit == SizeUnit::Bytes,
            r.false_positive_rate == false_positive_rate,
            !r.read_only,
            r.bloom_filter.sstable_path is None,
            r.bloom_filter.no_of_hash_func == false_positive_rate.no_of_hash_func,
            forall|p: int| 0 <= p < r.bloom_filter.bit_vec@.len() ==> !r.bloom_filter.bit_vec@[p],
    {
        let capacity_to_bytes = size_unit.to_bytes(capacity);
        let max_no_of_entries = capacity_to_bytes / AVERAGE_ENTRY_SIZE;
        let bf = BloomFilter::new(false_positive_rate, max_no_of_entries);
        let index = index_new();
        let now = now_millis();
        Self {
            index,
            bloom_filter: bf,
            size: 0,
            size_unit: SizeUnit::Bytes,
            capacity: capacity_to_bytes,
            created_at: now,
            false_positive_rate,
            read_only: false,
        }
    }

    /// Stores `entry` under its key, in place of any entry the key had, and
    /// counts its bytes. Fails, changing nothing, only where the byte count
    /// would leave the range of `usize`.
    pub fn insert(&mut self, entry: &Entry<Vec<u8>, usize>) -> (r: Result<(), StorageEngineError>)
        requires
            old(self).wf(),
            !old(self).read_only,
        ensures
            r is Ok <==> old(self).size + entry.key@.len() + ENTRY_OVERHEAD <= usize::MAX,
            r is Ok ==> {
                &&& final(self).wf()
                &&& final(self)@ == old(self)@.insert(entry.key@, value_of(*entry))
                &&& final(self).size == old(self).size + entry.key@.len() + ENTRY_OVERHEAD
                &&& final(self).same_settings(old(self))
                &&& final(self).bloom_filter.may_contain(entry.key@)
                &&& old(self).bloom_filter.may_contain(entry.key@) ==> final(self).bloom_filter
                    == old(self).bloom_filter
                &&& !old(self).bloom_filter.may_contain(entry.key@) ==> probes_added(
                    old(self).bloom_filter.bit_vec@,
                    final(self).bloom_filter.bit_vec@,
                    old(self).bloom_filter.no_of_hash_func as nat,
                    entry.key@,
                ) && final(self).bloom_filter.no_of_hash_func
                    == old(self).bloom_filter.no_of_hash_func
                    && final(self).bloom_filter.sstable_path
                    == old(self).bloom_filter.sstable_path
            },
            r matches Err(e) ==> {
                &&& *final(self) == *old(self)
                &&& e matches StorageEngineError::InsertToMemTableFailedError { value_offset, .. }
                &&& value_offset == entry.val_offset
            },
    {
        let entry_length_byte = match entry.key.len().checked_add(
            SIZE_OF_U32 + SIZE_OF_U64 + SIZE_OF_U8,
        ) {
            Some(n) => n,
            None => {
                return Err(
                    StorageEngineError::InsertToMemTableFailedError {
                        key: String::new(),
                        value_offset: entry.val_offset,
                    },
                );
            },
        };
        let new_size = match self.size.checked_add(entry_length_byte) {
            Some(n) => n,
            None => {
                return Err(
                    StorageEngineError::InsertToMemTableFailedError {
                        key: String::new(),
                        value_offset: entry.val_offset,
                    },
                );
            },
        };
        if !self.bloom_filter.contains(&entry.key) {
            let ghost before = self.bloom_filter;
            self.bloom_filter.set(&entry.key);
            proof {
                lemma_set_then_contains(before, self.bloom_filter, entry.key@);
            }
        }
        index_insert(
            &mut self.index,
            clone_key(&entry.key),
            (entry.val_offset, entry.created_at, entry.is_tombstone),
        );
        self.size = new_size;
        proof {
            assert forall|k: Seq<u8>| #[trigger] self@.dom().contains(k) implies
                self.bloom_filter.may_contain(k) by {
                if k != entry.key@ {
                    assert(old(self)@.dom().contains(k));
                }
            }
        }
        Ok(())
    }

    /// The entry stored under `key`, if there is one.
    pub fn get(&self, key: &Vec<u8>) -> (r: Result<Option<IndexValue>, StorageEngineError>)
        requires
            self.wf(),
        ensures
            r == Ok::<Option<IndexValue>, StorageEngineError>(self.lookup(key@)),
    {
        if self.bloom_filter.contains(key) {
            if let Some(value) = index_get(&self.index, key) {
                return Ok(Some(value));
            }
        }
        Ok(None)
    }

    /// Stores a new version of a key that the filter knows. The byte count
    /// stays as it is.
    pub fn update(&mut self, entry: &Entry<Vec<u8>, usize>) -> (r: Result<(), StorageEngineError>)
        requires
            old(self).wf(),
            !old(self).read_only,
        ensures
            r is Ok <==> old(self).bloom_filter.may_contain(entry.key@),
            r is Ok ==> {
                &&& final(self).wf()
                &&& final(self)@ == old(self)@.insert(entry.key@, value_of(*entry))
                &&& final(self).size == old(self).size
                &&& final(self).bloom_filter == old(self).bloom_filter
                &&& final(self).same_settings(old(self))
            },
            r matches Err(e) ==> *final(self) == *old(self)
                && e is KeyNotFoundInMemTable,
    {
        if !self.bloom_filter.contains(&entry.key) {
            return Err(StorageEngineError::KeyNotFoundInMemTable);
        }
        index_insert(
            &mut self.index,
            clone_key(&entry.key),
            (entry.val_offset, entry.created_at, entry.is_tombstone),
        );
        proof {
            assert forall|k: Seq<u8>| #[trigger] self@.dom().contains(k) implies
                self.bloom_filter.may_contain(k) by {
                if k != entry.key@ {
                    assert(old(self)@.dom().contains(k));
                }
            }
        }
        Ok(())
    }

    /// Stores `entry` whether or not its key is known: the same as `insert`.
    pub fn upsert(&mut self, entry: &Entry<Vec<u8>, usize>) -> (r: Result<(), StorageEngineError>)
        requires
            old(self).wf(),
            !old(self).read_only,
        ensures
            r is Ok <==> old(self).size + entry.key@.len() + ENTRY_OVERHEAD <= usize::MAX,
            r is Ok ==> {
                &&& final(self).wf()
                &&& final(self)@ == old(self)@.insert(entry.key@, value_of(*entry))
                &&& final(self).size == old(self).size + entry.key@.len() + ENTRY_OVERHEAD
                &&& final(self).same_settings(old(self))
            },
            r is Err ==> *final(self) == *old(self),
    {
        self.insert(entry)
    }

    /// A fresh identifier for a memtable: ten random ASCII letters and digits.
    pub fn generate_table_id() -> (r: Vec<u8>)
        ensures
            r@.len() == TABLE_ID_LEN,
            forall|i: int| 0 <= i < r@.len() ==> is_alphanumeric(#[trigger] r@[i]),
    {
        random_alphanumeric(TABLE_ID_LEN)
    }

    /// Marks a key that the filter knows as deleted at the time `now`: stores
    /// a tombstone for it at the offset of `entry` and counts its bytes.
    pub fn delete_at(&mut self, entry: &Entry<Vec<u8>, usize>, now: u64) -> (r: Result<
        (),
        StorageEngineError,
    >)
        requires
            old(self).wf(),
            !old(self).read_only,
        ensures
            r is Ok <==> old(self).bloom_filter.may_contain(entry.key@) && old(self).size
                + entry.key@.len() + ENTRY_OVERHEAD <= usize::MAX,
            r is Ok ==> {
                &&& final(self).wf()
                &&& final(self)@ == old(self)@.insert(entry.key@, (entry.val_offset, now, true))
                &&& final(self).size == old(self).size + entry.key@.len() + ENTRY_OVERHEAD
                &&& final(self).same_settings(old(self))
            },
            r matches Err(e) ==> {
                &&& *final(self) == *old(self)
                &&& e is KeyNotFoundInMemTable <==> !old(self).bloom_filter.may_contain(entry.key@)
                &&& e is InsertToMemTableFailedError <==> old(self).bloom_filter.may_contain(
                    entry.key@,
                )
            },
    {
        if !self.bloom_filter.contains(&entry.key) {
            return Err(StorageEngineError::KeyNotFoundInMemTable);
        }
        let tombstone = Entry::new(clone_key(&entry.key), entry.val_offset, now, true);
        self.insert(&tombstone)
    }

    /// Marks a key that the filter knows as deleted, at the time the wall
    /// clock shows.
    pub fn delete(&mut self, entry: &Entry<Vec<u8>, usize>) -> (r: Result<(), StorageEngineError>)
        requires
            old(self).wf(),
            !old(self).read_only,
        ensures
            r is Ok <==> old(self).bloom_filter.may_contain(entry.key@) && old(self).size
                + entry.key@.len() + ENTRY_OVERHEAD <= usize::MAX,
            r is Ok ==> {
                &&& final(self).wf()
                &&& exists|now: u64|
                    final(self)@ == old(self)@.insert(
                        entry.key@,
                        (entry.val_offset, now, true),
                    )
                &&& final(self).size == old(self).size + entry.key@.len() + ENTRY_OVERHEAD
                &&& final(self).same_settings(old(self))
            },
            r is Err ==> *final(self) == *old(self),
    {
        let now = now_millis();
        self.delete_at(entry, now)
    }

    /// Whether one more entry with a key of `key_len` bytes reaches the
    /// capacity.
    pub fn is_full(&self, key_len: usize) -> (r: bool)
        ensures
            r == self.full_for(key_len),
    {
        match key_len.checked_add(SIZE_OF_U32 + SIZE_OF_U64 + SIZE_OF_U8) {
            Some(n) => match self.size.checked_add(n) {
                Some(total) => total >= self.capacity,
                None => true,
            },
            None => true,
        }
    }

    /// The largest key of the table.
    pub fn find_biggest_key(&self) -> (r: Result<Vec<u8>, StorageEngineError>)
        ensures
            r is Ok <==> self@ != empty_index(),
            r matches Ok(b) ==> self@.dom().contains(b@) && forall|k: Seq<u8>|
                self@.dom().contains(k) ==> key_le(k, b@),
            r matches Err(e) ==> e is BiggestKeyIndexError,
    {
        match index_back(&self.index) {
            Some(k) => {
                assert(!empty_index().dom().contains(k@));
                Ok(k)
            },
            None => Err(StorageEngineError::BiggestKeyIndexError),
        }
    }

    /// The largest key of the table, for a reader that takes any kind of
    /// table.
    pub fn find_biggest_key_from_table(&self) -> (r: Result<Vec<u8>, StorageEngineError>)
        ensures
            r is Ok <==> self@ != empty_index(),
            r matches Ok(b) ==> self@.dom().contains(b@) && forall|k: Seq<u8>|
                self@.dom().contains(k) ==> key_le(k, b@),
            r matches Err(e) ==> e is BiggestKeyIndexError,
    {
        self.find_biggest_key()
    }

    /// The smallest key of the table.
    pub fn find_smallest_key(&self) -> (r: Result<Vec<u8>, StorageEngineError>)
        ensures
            r is Ok <==> self@ != empty_index(),
            r matches Ok(b) ==> self@.dom().contains(b@) && forall|k: Seq<u8>|
                self@.dom().contains(k) ==> key_le(b@, k),
            r matches Err(e) ==> e is BiggestKeyIndexError,
    {
        match index_front(&self.index) {
            Some(k) => {
                assert(!empty_index().dom().contains(k@));
                Ok(k)
            },
            None => Err(StorageEngineError::BiggestKeyIndexError),
        }
    }

    pub fn false_positive_rate(&self) -> (r: FilterRate)
        ensures
            r == self.false_positive_rate,
    {
        self.false_positive_rate
    }

    pub fn size(&self) -> (r: usize)
        ensures
            r == self.size,
    {
        self.size
    }

    /// Gives up the table for its index.
    pub fn get_index(self) -> (r: SkipMap<Vec<u8>, IndexValue>)
        ensures
            index_contents(r) == self@,
    {
        self.index
    }

    /// A copy of the table's filter.
    pub fn get_bloom_filter(&self) -> (r: BloomFilter)
        ensures
            r.sstable_path == self.bloom_filter.sstable_path,
            r.no_of_hash_func == self.bloom_filter.no_of_hash_func,
            r.no_of_elements == self.bloom_filter.no_of_elements,
            r.bit_vec@ == self.bloom_filter.bit_vec@,
    {
        self.bloom_filter.clone()
    }

    pub fn capacity(&self) -> (r: usize)
        ensures
            r == self.capacity,
    {
        self.capacity
    }

    pub fn size_unit(&self) -> (r: SizeUnit)
        ensures
            r == self.size_unit,
    {
        self.size_unit
    }

    /// Does nothing and hands nothing back: the entries of a memtable are
    /// read through `entries`, in ascending key order.
    pub fn range() {
    }

    /// The entries of the table in ascending key order.
    pub fn entries(&self) -> (r: Vec<Entry<Vec<u8>, usize>>)
        ensures
            lists_in_order(r@, self@),
    {
        index_entries(&self.index)
    }

    /// Empties the table: no entry, no byte counted, a fresh filter.
    pub fn clear(&mut self)
        ensures
            final(self).wf(),
            final(self)@ == empty_index(),
            final(self).size == 0,
            final(self).same_settings(old(self)),
            final(self).bloom_filter.no_of_hash_func == old(self).false_positive_rate.no_of_hash_func,
            forall|p: int|
                0 <= p < final(self).bloom_filter.bit_vec@.len() ==> !final(self).bloom_filter.bit_vec@[p],
    {
        let max_no_of_entries = self.capacity / AVERAGE_ENTRY_SIZE;
        index_clear(&mut self.index);
        self.size = 0;
        self.bloom_filter = BloomFilter::new(self.false_positive_rate, max_no_of_entries);
    }
}

} // verus!
