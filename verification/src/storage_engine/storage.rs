//! The storage engine.
//!
//! The engine decides; its caller reads and writes. A write hands back the
//! bytes to append to the value log; a read that misses the memtables names
//! the sorted tables to search and is resumed with what was found in them.

use crate::bloom_filter::{
    filters_of, hotness_descending, lemma_same_filters, sort_by_hotness, tables_admitting,
    BloomFilter,
};
use crate::cfg::Config;
use crate::clock::now_millis;
use crate::compaction::bucket::{
    bucket_dir_name, buckets_kept, data_file_name, first_fit, grown_by, has_bucket, image_size,
    is_handle, is_image_of, lemma_buckets_kept_twice, lemma_first_fit_in_range, lemma_image_size,
    lemma_placing_keeps_buckets, placed_in, sstable_dir_name, BucketID, BucketMap,
};
use crate::consts::{
    head_entry_key, head_key, is_reserved, is_reserved_key, SENTINEL_KEY_LEN, TOMB_STONE_MARKER,
};
use crate::err::StorageEngineError;
use crate::key_range::range::{tables_reaching, KeyRange};
use crate::keys::{clone_key, key_from_slice, key_le};
use crate::memtable::index::{empty_index, lists_in_order, IndexValue};
use crate::memtable::inmemory::{Entry, InMemoryTable, ENTRY_OVERHEAD};
use crate::memtable::sealed::{
    find_sealed, first_with_id, has_id, is_first_with_id, lemma_first_with_id, no_tables,
    sealed_get_index, sealed_insert, sealed_len, sealed_new, sealed_shift_remove_index,
    sealed_tables, SealedTables,
};
use crate::names::random_uuid;
use crate::sparse_index::{marks_ascending, marks_from, SparseIndex};
use crate::sstable::sst::{item_encodable, items_of, scan, table_lookup, SSTable, SstFiles};
use crate::sstable::table::Table;
use crate::storage_engine::guarantees::{lemma_newest_hit_is_latest, lemma_write_keeps_in_step};
use crate::storage_engine::recovery::{
    gone_through, lemma_points_into_extend, matches_record, points_into,
};
use crate::value_log::{
    encodable, is_whole_from, last_entry, record_at, record_bytes, records_from, times_ascend,
    Record, ValueLog, VLOG_HEADER_LEN,
};
use vstd::bytes::u32_to_le_bytes;
use vstd::prelude::*;
use vstd::string::StringSliceAdditionalSpecFns;

verus! {

/// File name of the value log under the root directory.
pub const VALUE_LOG_DIRECTORY_NAME: &'static str = "v_log.bin";

/// Directory name of the buckets under the root directory.
pub const BUCKETS_DIRECTORY_NAME: &'static str = "buckets";

/// Directory name of the checkpoints under the root directory.
pub const META_DIRECTORY_NAME: &'static str = "meta";

/// What `Path::join` gives for a base path and a name, both as text.
pub uninterp spec fn joined_path(base: Seq<char>, name: Seq<char>) -> Seq<char>;

/// `std::path::Path::join`: the path `base` with `name` adjoined. Both are
/// text, so the joined path is text again and nothing is lost in handing it
/// back as a `String`.
#[verifier::external_body]
pub(crate) fn join_path(base: &str, name: &str) -> (r: String)
    ensures
        r@ == joined_path(base@, name@),
{
    std::path::Path::new(base).join(name).to_string_lossy().into_owned()
}

/// Where the engine keeps its files.
#[derive(Debug)]
pub struct DirPath {
    pub root: String,
    pub val_log: String,
    pub buckets: String,
    pub meta: String,
}

impl Clone for DirPath {
    fn clone(&self) -> (r: Self)
        ensures
            r == *self,
    {
        DirPath {
            root: self.root.clone(),
            val_log: self.val_log.clone(),
            buckets: self.buckets.clone(),
            meta: self.meta.clone(),
        }
    }
}

/// The unit in which a capacity is given.
#[derive(Clone, Copy, Debug, PartialEq, Eq, Structural)]
pub enum SizeUnit {
    Bytes,
    Kilobytes,
    Megabytes,
    Gigabytes,
}

impl DirPath {
    /// The layout below `root_path`: the value log, the buckets and the
    /// checkpoints, each joined to the root.
    pub fn build(root_path: String) -> (r: Self)
        ensures
            r.root == root_path,
            r.val_log@ == joined_path(root_path@, VALUE_LOG_DIRECTORY_NAME@),
            r.buckets@ == joined_path(root_path@, BUCKETS_DIRECTORY_NAME@),
            r.meta@ == joined_path(root_path@, META_DIRECTORY_NAME@),
    {
        let root = root_path;
        let val_log = join_path(root.as_str(), VALUE_LOG_DIRECTORY_NAME);
        let buckets = join_path(root.as_str(), BUCKETS_DIRECTORY_NAME);
        let meta = join_path(root.as_str(), META_DIRECTORY_NAME);
        DirPath { root, val_log, buckets, meta }
    }
}

impl SizeUnit {
    /// The number of bytes in one unit.
    pub open spec fn factor(&self) -> int {
        match self {
            SizeUnit::Bytes => 1,
            SizeUnit::Kilobytes => 1024,
            SizeUnit::Megabytes => 1048576,
            SizeUnit::Gigabytes => 1073741824,
        }
    }

    /// `value` units in bytes.
    pub fn to_bytes(&self, value: usize) -> (r: usize)
        requires
            value * self.factor() <= usize::MAX,
        ensures
            r == value * self.factor(),
    {
        match self {
            SizeUnit::Bytes => value,
            SizeUnit::Kilobytes => value * 1024,
            SizeUnit::Megabytes => value * 1024 * 1024,
            SizeUnit::Gigabytes => value * 1024 * 1024 * 1024,
        }
    }
}

/// The newest entry for `key` in `tables`: the one created last, and of two
/// created at the same time the one in the table sealed later.
pub open spec fn newest_hit(tables: Seq<(Seq<u8>, InMemoryTable)>, key: Seq<u8>) -> Option<
    IndexValue,
>
    decreases tables.len(),
{
    if tables.len() == 0 {
        None
    } else {
        let older = newest_hit(tables.drop_last(), key);
        match tables.last().1.lookup(key) {
            None => older,
            Some(here) => match older {
                Some(o) if o.1 > here.1 => older,
                _ => Some(here),
            },
        }
    }
}

/// The entry for `key` in the memtable sealed last among those of `tables`
/// that hold the key.
pub open spec fn latest_hit(tables: Seq<(Seq<u8>, InMemoryTable)>, key: Seq<u8>) -> Option<
    IndexValue,
>
    decreases tables.len(),
{
    if tables.len() == 0 {
        None
    } else {
        match tables.last().1.lookup(key) {
            None => latest_hit(tables.drop_last(), key),
            Some(here) => Some(here),
        }
    }
}

/// `h` is the largest value-log offset of the entries of `m`.
pub open spec fn is_max_offset(m: Map<Seq<u8>, IndexValue>, h: usize) -> bool {
    &&& exists|k: Seq<u8>| m.dom().contains(k) && (#[trigger] m[k]).0 == h
    &&& forall|k: Seq<u8>| m.dom().contains(k) ==> (#[trigger] m[k]).0 <= h
}

/// What a write asks of the caller.
#[derive(Debug)]
pub struct WriteOutcome {
    /// Where in the value log the record starts.
    pub offset: usize,
    /// The bytes of the record, to be appended to the value log.
    pub record: Vec<u8>,
    /// Whether the active memtable was sealed and replaced.
    pub rolled_over: bool,
    /// The sealed memtable to flush now, if the queue has grown too long.
    pub flush: Option<Vec<u8>>,
}

/// A write that was checked against an engine and not yet made: what is to
/// be written, the creation time and the memtable identifier that were drawn
/// for it, and the record to append to the value log before the engine takes
/// the write.
#[derive(Debug)]
pub struct PlannedWrite {
    pub key: Vec<u8>,
    pub value: Vec<u8>,
    pub is_tombstone: bool,
    /// The creation time of the record.
    pub created_at: u64,
    /// The identifier under which the active memtable is sealed, should the
    /// write call for that.
    pub table_id: Vec<u8>,
    /// Where in the value log the record starts.
    pub offset: usize,
    /// The bytes of the record.
    pub record: Vec<u8>,
}

/// The next step of a read.
#[derive(Debug)]
pub enum ReadStep {
    /// The memtables do not know the key: search these sorted tables.
    SearchTables(Vec<Table>),
    /// The newest entry is live: read its record from the value log.
    ReadValue { offset: usize, created_at: u64 },
    /// The read ends here.
    Failed(StorageEngineError),
}

/// A sorted table that was made from a memtable: its handle and the bytes of
/// its two files, to be written where the handle says.
#[derive(Debug)]
pub struct FlushedTable {
    pub table: Table,
    pub files: SstFiles,
}

/// The newest of the entries found for a key in the sorted tables that were
/// searched: the one created last, and of two created at the same time the one
/// found first.
pub open spec fn newest_found(hits: Seq<Option<IndexValue>>) -> Option<IndexValue>
    decreases hits.len(),
{
    if hits.len() == 0 {
        None
    } else {
        let earlier = newest_found(hits.drop_last());
        match hits.last() {
            None => earlier,
            Some(here) => match earlier {
                Some(e) if e.1 >= here.1 => earlier,
                _ => Some(here),
            },
        }
    }
}

/// What a search of a sorted table finds for `key`, given the bytes of its
/// index file and of its data file: the scan from the floor of the key among
/// the marks. A table whose marks do not ascend is scanned from its start.
pub open spec fn found_in_table(index: Seq<u8>, data: Seq<u8>, key: Seq<u8>) -> Option<IndexValue> {
    let marks = marks_from(index, 0);
    if marks_ascending(marks) {
        table_lookup(marks, data, key)
    } else {
        scan(data, 0, key)
    }
}

/// The interval between two marks that the engine uses: the configured one,
/// and one where none is configured.
pub open spec fn effective_interval(config: Config) -> int {
    if config.sparse_interval == 0 {
        1
    } else {
        config.sparse_interval as int
    }
}

/// Whether a memtable with the entries `m` can be written out as a sorted
/// table made at `created_at`: it is not empty, its keys fit the table
/// format, its table finds a bucket (one whose window holds the table's size,
/// or a new one that goes by `fresh_id`, which must be free), and no table
/// with the same data file is registered yet.
pub open spec fn can_flush(
    buckets: BucketMap,
    key_index: KeyRange,
    config: Config,
    m: Map<Seq<u8>, IndexValue>,
    created_at: u64,
    fresh_id: BucketID,
) -> bool {
    let size = image_size(m) as u64;
    let low = config.size_tier_low_percent;
    let high = config.size_tier_high_percent;
    &&& m != empty_index()
    &&& forall|k: Seq<u8>| m.dom().contains(k) ==> k.len() <= u32::MAX
    &&& first_fit(buckets.buckets@, size, low, high) < buckets.buckets@.len() || !has_bucket(
        buckets.buckets@,
        fresh_id,
    )
    &&& !key_index@.dom().contains(
        data_file_name(
            sstable_dir_name(buckets.target_dir(size, fresh_id, low, high), created_at),
            created_at,
        ),
    )
}

/// Whether `filter` is the filter of `table` as it was written out of
/// `memtable`: it is tied to the table and carries the bits of the memtable's
/// filter.
pub open spec fn is_filter_of(filter: BloomFilter, memtable: InMemoryTable, table: Table) -> bool {
    &&& filter.sstable_path == Some(table)
    &&& filter.bit_vec@ == memtable.bloom_filter.bit_vec@
    &&& filter.no_of_hash_func == memtable.bloom_filter.no_of_hash_func
}

/// `smallest` and `biggest` are keys of `m` and enclose every key of `m`.
pub open spec fn is_envelope(m: Map<Seq<u8>, IndexValue>, smallest: Seq<u8>, biggest: Seq<u8>) -> bool {
    &&& m.dom().contains(smallest)
    &&& m.dom().contains(biggest)
    &&& forall|k: Seq<u8>| m.dom().contains(k) ==> key_le(smallest, k) && key_le(k, biggest)
}

/// Searches a sorted table for `key`, given the bytes of its index file and of
/// its data file.
pub fn search_table(index: &[u8], data: &[u8], key: &[u8]) -> (r: Option<IndexValue>)
    ensures
        r == found_in_table(index@, data@, key@),
{
    let sparse = SparseIndex::from_bytes(index);
    if sparse.is_sorted() {
        match sparse.get(key) {
            None => None,
            Some(block_offset) => SSTable::get(data, block_offset, key),
        }
    } else {
        SSTable::get(data, 0, key)
    }
}

/// The step that follows a search of the sorted tables: the newest entry
/// found settles the read.
pub fn resolve_table_hits(hits: &Vec<Option<IndexValue>>) -> (r: ReadStep)
    ensures
        match newest_found(hits@) {
            None => r matches ReadStep::Failed(e) && e is NotFoundInDB,
            Some((offset, created_at, is_tombstone)) => if is_tombstone {
                r matches ReadStep::Failed(e) && e is KeyFoundAsTombstoneInSSTableError
            } else {
                r == (ReadStep::ReadValue { offset, created_at })
            },
        },
{
    let mut best: Option<IndexValue> = None;
    let mut i: usize = 0;
    while i < hits.len()
        invariant
            i <= hits@.len(),
            best == newest_found(hits@.subrange(0, i as int)),
        decreases hits.len() - i,
    {
        proof {
            let next = hits@.subrange(0, i + 1);
            assert(next.drop_last() =~= hits@.subrange(0, i as int));
            assert(next.last() == hits@[i as int]);
        }
        if let Some(here) = hits[i] {
            best = match best {
                Some(e) => if e.1 >= here.1 {
                    Some(e)
                } else {
                    Some(here)
                },
                None => Some(here),
            };
        }
        i += 1;
    }
    assert(hits@.subrange(0, i as int) =~= hits@);
    match best {
        None => ReadStep::Failed(StorageEngineError::NotFoundInDB),
        Some((offset, created_at, is_tombstone)) => {
            if is_tombstone {
                ReadStep::Failed(StorageEngineError::KeyFoundAsTombstoneInSSTableError)
            } else {
                ReadStep::ReadValue { offset, created_at }
            }
        },
    }
}

/// The end of a read: what the value log holds at the entry's offset settles
/// it. `found` is the value and the tombstone flag of the record there, or
/// `None` where no record stands there.
pub fn resolve_value(found: Option<(Vec<u8>, bool)>, created_at: u64) -> (r: Result<
    (Vec<u8>, u64),
    StorageEngineError,
>)
    ensures
        match found {
            None => r matches Err(e) && e is KeyNotFoundInValueLogError,
            Some((value, is_tombstone)) => if is_tombstone {
                r matches Err(e) && e is KeyFoundAsTombstoneInValueLogError
            } else {
                r matches Ok(pair) && pair.0 == value && pair.1 == created_at
            },
        },
{
    match found {
        Some((value, is_tombstone)) => {
            if is_tombstone {
                Err(StorageEngineError::KeyFoundAsTombstoneInValueLogError)
            } else {
                Ok((value, created_at))
            }
        },
        None => Err(StorageEngineError::KeyNotFoundInValueLogError),
    }
}

/// What a read of a key comes to, as far as the memtables and the value log
/// decide it.
pub enum Reading {
    /// The newest entry is live and its record holds this value.
    Value { value: Seq<u8>, created_at: u64 },
    /// The newest entry is a tombstone.
    TombstoneInMemtable,
    /// The newest entry is live but its record is a tombstone.
    TombstoneInValueLog,
    /// The newest entry is live but no record stands at its offset.
    MissingInValueLog,
    /// No memtable knows the key: the sorted tables decide.
    NotInMemtables,
}

/// The storage engine.
pub struct StorageEngine {
    pub dir: DirPath,
    pub active_memtable: InMemoryTable,
    pub bloom_filters: Vec<BloomFilter>,
    pub val_log: ValueLog,
    pub buckets: BucketMap,
    pub biggest_key_index: KeyRange,
    pub config: Config,
    pub read_only_memtables: SealedTables,
    /// The latest time at which a sorted table was made. Tables are named by
    /// the time of their making, so no two may be made at the same time.
    pub last_table_stamp: u64,
    /// The latest creation time given to a record. Creation times order the
    /// records of a key, so no two records may be created at the same time.
    pub last_write_stamp: u64,
}

/// The value that a tombstone record carries.
pub open spec fn tombstone_value() -> Seq<u8> {
    vstd::bytes::spec_u32_to_le_bytes(TOMB_STONE_MARKER)
}

/// Filters picked from well-formed filters are well formed.
pub proof fn lemma_filters_of_wf(filters: Seq<BloomFilter>, tables: Seq<Table>)
    requires
        forall|i: int| 0 <= i < filters.len() ==> (#[trigger] filters[i]).wf(),
    ensures
        forall|i: int|
            0 <= i < filters_of(filters, tables).len() ==> (#[trigger] filters_of(
                filters,
                tables,
            )[i]).wf(),
    decreases filters.len(),
{
    if filters.len() > 0 {
        lemma_filters_of_wf(filters.drop_last(), tables);
        let picked = filters_of(filters, tables);
        let earlier = filters_of(filters.drop_last(), tables);
        assert forall|i: int| 0 <= i < picked.len() implies (#[trigger] picked[i]).wf() by {
            if i < earlier.len() {
                assert(picked[i] == earlier[i]);
            } else {
                assert(picked[i] == filters.last());
            }
        }
    }
}

/// The largest value-log offset among `entries`.
pub fn largest_offset(entries: &Vec<Entry<Vec<u8>, usize>>) -> (r: usize)
    requires
        entries@.len() > 0,
    ensures
        exists|i: int| 0 <= i < entries@.len() && (#[trigger] entries@[i]).val_offset == r,
        forall|i: int| 0 <= i < entries@.len() ==> (#[trigger] entries@[i]).val_offset <= r,
{
    let mut best: usize = entries[0].val_offset;
    let mut i: usize = 1;
    while i < entries.len()
        invariant
            1 <= i <= entries@.len(),
            exists|j: int| 0 <= j < i && (#[trigger] entries@[j]).val_offset == best,
            forall|j: int| 0 <= j < i ==> (#[trigger] entries@[j]).val_offset <= best,
        decreases entries.len() - i,
    {
        if entries[i].val_offset > best {
            best = entries[i].val_offset;
        }
        i += 1;
    }
    best
}

/// The largest offset of a listing is the largest offset of the map it lists.
pub proof fn lemma_largest_offset(
    entries: Seq<Entry<Vec<u8>, usize>>,
    m: Map<Seq<u8>, IndexValue>,
    h: usize,
)
    requires
        lists_in_order(entries, m),
        exists|i: int| 0 <= i < entries.len() && (#[trigger] entries[i]).val_offset == h,
        forall|i: int| 0 <= i < entries.len() ==> (#[trigger] entries[i]).val_offset <= h,
    ensures
        is_max_offset(m, h),
{
    let i = choose|i: int| 0 <= i < entries.len() && (#[trigger] entries[i]).val_offset == h;
    assert(m.dom().contains(entries[i].key@));
    assert(m[entries[i].key@].0 == h);
    assert forall|k: Seq<u8>| m.dom().contains(k) implies (#[trigger] m[k]).0 <= h by {
        let j = choose|j: int| 0 <= j < entries.len() && entries[j].key@ == k;
        assert(m.dom().contains(entries[j].key@));
        assert(entries[j].val_offset <= h);
    }
}

impl StorageEngine {
    /// Every part of the engine is well formed, and the active memtable
    /// accepts writes.
    pub open spec fn wf(&self) -> bool {
        &&& self.active_memtable.wf()
        &&& !self.active_memtable.read_only
        &&& self.active_memtable.capacity > 0
        &&& self.active_memtable.size_unit == SizeUnit::Bytes
        &&& self.val_log.wf()
        &&& self.buckets.wf()
        &&& self.biggest_key_index.wf()
        &&& forall|i: int|
            0 <= i < self.sealed().len() ==> (#[trigger] self.sealed()[i]).1.wf()
        &&& forall|i: int|
            0 <= i < self.bloom_filters@.len() ==> (#[trigger] self.bloom_filters@[i]).wf()
                && self.bloom_filters@[i].sstable_path is Some
    }

    /// The sealed memtables, oldest first, each with its identifier.
    pub open spec fn sealed(&self) -> Seq<(Seq<u8>, InMemoryTable)> {
        sealed_tables(self.read_only_memtables)
    }

    /// What the memtables hold for `key`: the entry of the active memtable,
    /// or else the newest entry of the sealed ones.
    pub open spec fn memtable_entry(&self, key: Seq<u8>) -> Option<IndexValue> {
        match self.active_memtable.lookup(key) {
            Some(v) => Some(v),
            None => newest_hit(self.sealed(), key),
        }
    }

    /// Whether the active memtable is to be sealed before the next write.
    pub open spec fn needs_rollover(&self) -> bool {
        self.active_memtable.full_for(SENTINEL_KEY_LEN)
    }

    /// Whether the record fits the value log's format and the log's size
    /// stays in range.
    pub open spec fn record_fits(&self, key: Seq<u8>, value: Seq<u8>) -> bool {
        &&& key.len() <= u32::MAX
        &&& value.len() <= u32::MAX
        &&& self.val_log.size + VLOG_HEADER_LEN + key.len() + value.len() <= usize::MAX
    }

    /// Whether the byte counts of the memtables stay in range when an entry
    /// for `key` is written.
    pub open spec fn entry_fits(&self, key: Seq<u8>) -> bool {
        if self.needs_rollover() {
            &&& self.active_memtable.size + SENTINEL_KEY_LEN + ENTRY_OVERHEAD <= usize::MAX
            &&& key.len() + ENTRY_OVERHEAD <= usize::MAX
        } else {
            self.active_memtable.size + key.len() + ENTRY_OVERHEAD <= usize::MAX
        }
    }

    /// Whether a write of `key` and `value` is accepted, whatever identifier
    /// a memtable sealed on the way is to go by.
    pub open spec fn accepts(&self, key: Seq<u8>, value: Seq<u8>) -> bool {
        &&& !is_reserved(key)
        &&& self.record_fits(key, value)
        &&& self.needs_rollover() ==> self.active_memtable@ != empty_index()
        &&& self.entry_fits(key)
    }

    /// Whether the next write goes through whatever identifier is drawn for
    /// the memtable that it may seal: no memtable is to be sealed, or none is
    /// sealed yet, so that every identifier is free.
    pub open spec fn seals_freely(&self) -> bool {
        !self.needs_rollover() || self.sealed().len() == 0
    }

    /// Whether the active memtable can be sealed under `id`, should the next
    /// write call for that: no sealed memtable goes by `id` yet.
    pub open spec fn can_seal_as(&self, id: Seq<u8>) -> bool {
        self.needs_rollover() ==> !has_id(self.sealed(), id)
    }

    /// The sorted tables to search for `key`: those whose key range reaches
    /// the key and whose filter reports it as possibly present.
    pub open spec fn tables_to_search(&self, key: Seq<u8>) -> Seq<Table> {
        tables_admitting(
            filters_of(self.bloom_filters@, tables_reaching(self.biggest_key_index.key_ranges@, key)),
            key,
        )
    }

    /// What the tiers of the memtables hold for `key`, going from the newest
    /// tier to the oldest: the entry of the active memtable, or else the
    /// entry of the memtable sealed last among those that hold the key.
    pub open spec fn first_in_tiers(&self, key: Seq<u8>) -> Option<IndexValue> {
        match self.active_memtable.lookup(key) {
            Some(v) => Some(v),
            None => latest_hit(self.sealed(), key),
        }
    }

    /// Whether no memtable holds an entry for `key` that was created later
    /// than `found`.
    pub open spec fn is_newest_in_memtables(&self, key: Seq<u8>, found: IndexValue) -> bool {
        &&& self.active_memtable@.dom().contains(key) ==> self.active_memtable@[key].1 <= found.1
        &&& forall|i: int|
            0 <= i < self.sealed().len() && #[trigger] self.sealed()[i].1@.dom().contains(key)
                ==> self.sealed()[i].1@[key].1 <= found.1
    }

    /// Whether `step` is the first step of a read of `key`.
    pub open spec fn is_read_plan(&self, key: Seq<u8>, step: ReadStep) -> bool {
        self.is_plan_for(self.memtable_entry(key), key, step)
    }

    /// Whether `step` is the first step of a read of `key`, where the
    /// memtables are searched tier by tier, from the newest to the oldest.
    pub open spec fn is_tiered_read_plan(&self, key: Seq<u8>, step: ReadStep) -> bool {
        &&& self.is_plan_for(self.first_in_tiers(key), key, step)
        &&& self.first_in_tiers(key) matches Some(found) ==> self.is_newest_in_memtables(key, found)
    }

    /// Whether `step` is the first step of a read of `key`, where the
    /// memtables hold `found` for the key.
    pub open spec fn is_plan_for(
        &self,
        found: Option<IndexValue>,
        key: Seq<u8>,
        step: ReadStep,
    ) -> bool {
        match found {
            Some((offset, created_at, is_tombstone)) => if is_tombstone {
                step matches ReadStep::Failed(e) && e is KeyFoundAsTombstoneInMemtableError
            } else {
                step == (ReadStep::ReadValue { offset, created_at })
            },
            None => {
                let in_range = tables_reaching(self.biggest_key_index.key_ranges@, key);
                if in_range.len() == 0 {
                    step matches ReadStep::Failed(e) && e is KeyNotFoundInAnySSTableError
                } else if filters_of(self.bloom_filters@, in_range).len() == 0 {
                    step matches ReadStep::Failed(e) && e is KeyNotFoundByAnyBloomFilterError
                } else if self.tables_to_search(key).len() == 0 {
                    step matches ReadStep::Failed(e) && e is KeyNotFoundInAnySSTableError
                } else {
                    step matches ReadStep::SearchTables(tables) && tables@
                        == self.tables_to_search(key)
                }
            },
        }
    }

    /// Every entry of every memtable, but the engine's own, points to its
    /// record in the value log.
    pub open spec fn faithful(&self) -> bool {
        &&& points_into(self.active_memtable@, self.val_log.log@)
        &&& forall|i: int|
            0 <= i < self.sealed().len() ==> points_into(
                (#[trigger] self.sealed()[i]).1@,
                self.val_log.log@,
            )
    }

    /// What a read of `key` comes to when the value log holds `log`.
    pub open spec fn reading_in(&self, key: Seq<u8>, log: Seq<u8>) -> Reading {
        match self.memtable_entry(key) {
            None => Reading::NotInMemtables,
            Some((offset, created_at, is_tombstone)) => if is_tombstone {
                Reading::TombstoneInMemtable
            } else {
                match record_at(log, offset as int) {
                    None => Reading::MissingInValueLog,
                    Some(rec) => if rec.is_tombstone {
                        Reading::TombstoneInValueLog
                    } else {
                        Reading::Value { value: rec.value, created_at }
                    },
                }
            },
        }
    }

    /// What a read of `key` comes to.
    pub open spec fn reading(&self, key: Seq<u8>) -> Reading {
        self.reading_in(key, self.val_log.log@)
    }

    /// The memtables mirror the value log: the log is made of whole records,
    /// and for every key but the engine's own the memtables hold the entry of
    /// the last record of that key behind the log's first record.
    pub open spec fn mirrors_log(&self) -> bool {
        let records = records_from(self.val_log.log@, 0);
        &&& is_whole_from(self.val_log.log@, 0)
        &&& records.len() >= 1
        &&& forall|k: Seq<u8>|
            !is_reserved(k) ==> #[trigger] self.memtable_entry(k) == last_entry(
                gone_through(records, records.len() as int),
                k,
            )
    }

    /// No entry of a memtable, but for the engine's own, was created later
    /// than the latest creation time that the engine has given out.
    pub open spec fn stamped(&self) -> bool {
        &&& forall|k: Seq<u8>|
            !is_reserved(k) && #[trigger] self.active_memtable@.dom().contains(k)
                ==> self.active_memtable@[k].1 <= self.last_write_stamp
        &&& forall|i: int, k: Seq<u8>|
            0 <= i < self.sealed().len() && !is_reserved(k)
                && #[trigger] self.sealed()[i].1@.dom().contains(k) ==> self.sealed()[i].1@[k].1
                <= self.last_write_stamp
    }

    /// The engine is in step with its value log: the memtables mirror the
    /// log, creation times ascend through the log and agree with the order of
    /// the memtables, every entry points to its record, and no record or entry
    /// was created later than the latest creation time given out.
    ///
    /// A store that starts afresh is in step, and stays so under `put` and
    /// `delete` until it flushes.
    pub open spec fn in_step(&self) -> bool {
        let records = records_from(self.val_log.log@, 0);
        &&& self.mirrors_log()
        &&& self.chronological()
        &&& self.faithful()
        &&& self.stamped()
        &&& times_ascend(records)
        &&& forall|n: int|
            0 <= n < records.len() ==> (#[trigger] records[n]).1.created_at
                <= self.last_write_stamp
    }

    /// Creation times agree with the order of the memtables: of two entries
    /// for one key, but for the engine's own, the one in the memtable sealed
    /// later was not created earlier, and the one in the active memtable was
    /// created last.
    pub open spec fn chronological(&self) -> bool {
        &&& forall|i: int, j: int, k: Seq<u8>|
            0 <= i < j < self.sealed().len() && !is_reserved(k)
                && #[trigger] self.sealed()[i].1@.dom().contains(k)
                && #[trigger] self.sealed()[j].1@.dom().contains(k) ==> self.sealed()[i].1@[k].1
                <= self.sealed()[j].1@[k].1
        &&& forall|i: int, k: Seq<u8>|
            0 <= i < self.sealed().len() && !is_reserved(k)
                && #[trigger] self.sealed()[i].1@.dom().contains(k)
                && self.active_memtable@.dom().contains(k) ==> self.sealed()[i].1@[k].1
                <= self.active_memtable@[k].1
    }

    /// Whether this engine is `before` after a write of the record
    /// `(key, value, created_at, is_tombstone)` at `offset`: the record was
    /// appended to the value log, and the entry went to the active memtable,
    /// which was sealed first if it was full.
    pub open spec fn wrote(
        &self,
        before: &StorageEngine,
        key: Seq<u8>,
        value: Seq<u8>,
        is_tombstone: bool,
        created_at: u64,
        offset: usize,
    ) -> bool {
        let rec = Record { key, value, created_at, is_tombstone };
        &&& !is_reserved(key)
        &&& encodable(rec)
        &&& offset == before.val_log.log@.len()
        &&& self.val_log.log@ == before.val_log.log@ + record_bytes(rec)
        &&& record_at(self.val_log.log@, offset as int) == Some(rec)
        &&& if before.needs_rollover() {
            &&& self.sealed().len() == before.sealed().len() + 1
            &&& self.sealed().subrange(0, before.sealed().len() as int) == before.sealed()
            &&& exists|head: IndexValue|
                self.sealed().last().1@ == #[trigger] before.active_memtable@.insert(
                    head_entry_key(),
                    head,
                )
            &&& self.active_memtable@ == empty_index().insert(
                key,
                (offset, created_at, is_tombstone),
            )
        } else {
            &&& self.sealed() == before.sealed()
            &&& self.active_memtable@ == before.active_memtable@.insert(
                key,
                (offset, created_at, is_tombstone),
            )
        }
    }

    /// The memtable at `position`: the active one for `None`, the sealed one
    /// at that place in the queue otherwise.
    pub open spec fn memtable_at(&self, position: Option<usize>) -> InMemoryTable {
        match position {
            None => self.active_memtable,
            Some(i) => self.sealed()[i as int].1,
        }
    }

    /// Everything but the memtables and the value log is as in `other`: the
    /// sorted tables and what is registered for them, the directories, the
    /// configuration, and the capacity and filter dimensions of the active
    /// memtable.
    pub open spec fn same_tables(&self, other: &StorageEngine) -> bool {
        &&& self.dir == other.dir
        &&& self.config == other.config
        &&& self.bloom_filters == other.bloom_filters
        &&& self.buckets == other.buckets
        &&& self.biggest_key_index == other.biggest_key_index
        &&& self.last_table_stamp == other.last_table_stamp
        &&& self.val_log.tail_offset == other.val_log.tail_offset
        &&& self.active_memtable.capacity == other.active_memtable.capacity
        &&& self.active_memtable.false_positive_rate == other.active_memtable.false_positive_rate
    }

    /// Whether the memtable at `position` can be written out as a sorted table
    /// made at `created_at`, a new bucket going by `fresh_id`.
    pub open spec fn can_flush_at(
        &self,
        position: Option<usize>,
        created_at: u64,
        fresh_id: BucketID,
    ) -> bool {
        can_flush(
            self.buckets,
            self.biggest_key_index,
            self.config,
            self.memtable_at(position)@,
            created_at,
            fresh_id,
        )
    }

    /// Whether `now` is a time under which the next sorted table can be made:
    /// a time after the latest table was made, or the last time there is.
    pub open spec fn is_table_stamp(&self, now: u64) -> bool {
        now > self.last_table_stamp || now == u64::MAX
    }

    /// Whether the memtable at `position` can be written out at whatever time
    /// the next table is made and whatever identifier is drawn for a new
    /// bucket.
    pub open spec fn always_flushes(&self, position: Option<usize>) -> bool {
        forall|created_at: u64, fresh_id: BucketID|
            self.is_table_stamp(created_at) ==> #[trigger] self.can_flush_at(
                position,
                created_at,
                fresh_id,
            )
    }

    /// Whether the memtable at `position` cannot be written out at whatever
    /// time the next table is made and whatever identifier is drawn for a new
    /// bucket.
    pub open spec fn never_flushes(&self, position: Option<usize>) -> bool {
        forall|created_at: u64, fresh_id: BucketID|
            self.is_table_stamp(created_at) ==> !#[trigger] self.can_flush_at(
                position,
                created_at,
                fresh_id,
            )
    }

    /// What was registered before is registered still: the filters of
    /// `before` are the first filters, and every key envelope of `before` is
    /// there unchanged.
    pub open spec fn keeps_registered(&self, before: &StorageEngine) -> bool {
        &&& self.bloom_filters@.len() >= before.bloom_filters@.len()
        &&& self.bloom_filters@.subrange(0, before.bloom_filters@.len() as int)
            == before.bloom_filters@
        &&& forall|p: Seq<char>| #[trigger]
            before.biggest_key_index@.dom().contains(p)
                ==> self.biggest_key_index@.dom().contains(p) && self.biggest_key_index@[p]
                == before.biggest_key_index@[p]
        &&& buckets_kept(before.buckets.buckets@, self.buckets.buckets@)
    }

    /// The memtables, the value log, the directories and the configuration
    /// are as in `other`.
    pub open spec fn same_memtables(&self, other: &StorageEngine) -> bool {
        &&& self.active_memtable == other.active_memtable
        &&& self.read_only_memtables == other.read_only_memtables
        &&& self.val_log == other.val_log
        &&& self.dir == other.dir
        &&& self.config == other.config
    }

    /// The table of `flushed` was registered for `memtable`: its files hold
    /// the memtable's entries, its path was new to the key index and is there
    /// now with an envelope of the memtable's keys, and its filter is the last
    /// of the filters.
    pub open spec fn registered(
        &self,
        before: &StorageEngine,
        memtable: InMemoryTable,
        flushed: FlushedTable,
    ) -> bool {
        let path = flushed.table.data_file_path@;
        &&& is_image_of(flushed.files, memtable@, effective_interval(before.config))
        &&& forall|k: Seq<u8>| memtable@.dom().contains(k) ==> k.len() <= u32::MAX
        &&& flushed.table.size == flushed.files.data@.len()
        &&& !before.biggest_key_index@.dom().contains(path)
        &&& self.biggest_key_index@.dom() == before.biggest_key_index@.dom().insert(path)
        &&& forall|p: Seq<char>|
            before.biggest_key_index@.dom().contains(p) ==> self.biggest_key_index@[p]
                == before.biggest_key_index@[p]
        &&& self.biggest_key_index@[path].sst == flushed.table
        &&& is_envelope(
            memtable@,
            self.biggest_key_index@[path].smallest_key@,
            self.biggest_key_index@[path].biggest_key@,
        )
        &&& self.bloom_filters@.len() == before.bloom_filters@.len() + 1
        &&& self.bloom_filters@.subrange(0, before.bloom_filters@.len() as int)
            == before.bloom_filters@
        &&& self.bloom_filters@.last().sstable_path == Some(flushed.table)
        &&& self.bloom_filters@.last().bit_vec@ == memtable.bloom_filter.bit_vec@
        &&& self.bloom_filters@.last().no_of_hash_func == memtable.bloom_filter.no_of_hash_func
        &&& self.buckets.dir == before.buckets.dir
        &&& placed_in(
            before.buckets.buckets@,
            self.buckets.buckets@,
            flushed.table,
            first_fit(
                before.buckets.buckets@,
                flushed.table.size,
                before.config.size_tier_low_percent,
                before.config.size_tier_high_percent,
            ),
        )
        &&& buckets_kept(before.buckets.buckets@, self.buckets.buckets@)
    }

    /// Whether `flushed` is registered for `memtable`: the key index holds
    /// its table under an envelope of the memtable's keys, and one of the
    /// filters is tied to the table and carries the bits of the memtable's
    /// filter.
    pub open spec fn holds_table(&self, memtable: InMemoryTable, flushed: FlushedTable) -> bool {
        let path = flushed.table.data_file_path@;
        &&& self.biggest_key_index@.dom().contains(path)
        &&& self.biggest_key_index@[path].sst == flushed.table
        &&& is_envelope(
            memtable@,
            self.biggest_key_index@[path].smallest_key@,
            self.biggest_key_index@[path].biggest_key@,
        )
        &&& exists|j: int|
            0 <= j < self.bloom_filters@.len() && is_filter_of(
                #[trigger] self.bloom_filters@[j],
                memtable,
                flushed.table,
            )
    }

    /// Whether what `before` had registered is registered still, in whatever
    /// order the filters stand: every key envelope is there unchanged, every
    /// filter is among the filters, and no bucket has left or lost a table.
    pub open spec fn keeps_tables(&self, before: &StorageEngine) -> bool {
        &&& forall|p: Seq<char>| #[trigger]
            before.biggest_key_index@.dom().contains(p)
                ==> self.biggest_key_index@.dom().contains(p) && self.biggest_key_index@[p]
                == before.biggest_key_index@[p]
        &&& forall|j: int|
            0 <= j < before.bloom_filters@.len() ==> self.bloom_filters@.contains(
                #[trigger] before.bloom_filters@[j],
            )
        &&& buckets_kept(before.buckets.buckets@, self.buckets.buckets@)
    }

    /// The sealed memtable that holds the newest entry for `key`, scanning
    /// from the oldest.
    pub fn lookup_sealed(&self, key: &Vec<u8>) -> (r: Option<IndexValue>)
        requires
            self.wf(),
        ensures
            r == newest_hit(self.sealed(), key@),
    {
        let n = sealed_len(&self.read_only_memtables);
        let ghost tables = self.sealed();
        let mut best: Option<IndexValue> = None;
        let mut i: usize = 0;
        while i < n
            invariant
                i <= n,
                n == tables.len(),
                tables == sealed_tables(self.read_only_memtables),
                forall|j: int| 0 <= j < tables.len() ==> (#[trigger] tables[j]).1.wf(),
                best == newest_hit(tables.subrange(0, i as int), key@),
            decreases n - i,
        {
            let (_, table) = sealed_get_index(&self.read_only_memtables, i);
            proof {
                let next = tables.subrange(0, i + 1);
                assert(next.drop_last() =~= tables.subrange(0, i as int));
                assert(next.last() == tables[i as int]);
                assert(tables[i as int].1.wf());
            }
            let found = match table.get(key) {
                Ok(f) => f,
                Err(_) => None,
            };
            if let Some(here) = found {
                best = match best {
                    Some(o) => if o.1 > here.1 {
                        Some(o)
                    } else {
                        Some(here)
                    },
                    None => Some(here),
                };
            }
            i += 1;
        }
        assert(tables.subrange(0, i as int) =~= tables);
        best
    }

    /// Writes a record for `key`: notes it in the value log, seals the active
    /// memtable first if that is full, and stores the entry in the active
    /// memtable. `created_at` is the record's creation time; `sealed_at` and
    /// `table_id` are the time and the identifier under which the active
    /// memtable is sealed, should that happen.
    ///
    /// A write that is not accepted changes nothing.
    #[verifier::rlimit(30)]
    pub fn write_at(
        &mut self,
        key: &[u8],
        value: &[u8],
        is_tombstone: bool,
        created_at: u64,
        sealed_at: u64,
        table_id: Vec<u8>,
    ) -> (r: Result<WriteOutcome, StorageEngineError>)
        requires
            old(self).wf(),
        ensures
            r is Ok <==> old(self).accepts(key@, value@) && old(self).can_seal_as(table_id@),
            r matches Err(e) ==> {
                &&& *final(self) == *old(self)
                &&& e is ReservedKeyError <==> is_reserved(key@)
                &&& e is VLogFileWriteError <==> !is_reserved(key@) && !old(self).record_fits(
                    key@,
                    value@,
                )
                &&& e is BiggestKeyIndexError <==> !is_reserved(key@) && old(self).record_fits(
                    key@,
                    value@,
                ) && old(self).needs_rollover() && old(self).active_memtable@ == empty_index()
                &&& e is InsertToMemTableFailedError <==> !is_reserved(key@)
                    && old(self).record_fits(key@, value@) && !(old(self).needs_rollover()
                    && old(self).active_memtable@ == empty_index()) && (!old(self).entry_fits(
                    key@,
                ) || !old(self).can_seal_as(table_id@))
            },
            r matches Ok(out) ==> {
                &&& final(self).wf()
                &&& out.offset == old(self).val_log.size
                &&& out.record@ == record_bytes(
                    (Record { key: key@, value: value@, created_at, is_tombstone }),
                )
                &&& final(self).val_log.log@ == old(self).val_log.log@ + out.record@
                &&& record_at(final(self).val_log.log@, out.offset as int) == Some(
                    (Record { key: key@, value: value@, created_at, is_tombstone }),
                )
                &&& final(self).memtable_entry(key@) == Some(
                    (out.offset, created_at, is_tombstone),
                )
                &&& old(self).faithful() ==> final(self).faithful()
                &&& old(self).stamped() ==> final(self).stamped()
                &&& final(self).wrote(
                    old(self),
                    key@,
                    value@,
                    is_tombstone,
                    created_at,
                    out.offset,
                )
                &&& final(self).last_write_stamp == if created_at > old(self).last_write_stamp {
                    created_at
                } else {
                    old(self).last_write_stamp
                }
                &&& out.rolled_over == old(self).needs_rollover()
                &&& final(self).same_tables(old(self))
            },
            r matches Ok(out) ==> (!out.rolled_over ==> {
                &&& final(self).active_memtable@ == old(self).active_memtable@.insert(
                    key@,
                    (out.offset, created_at, is_tombstone),
                )
                &&& final(self).active_memtable.size == old(self).active_memtable.size
                    + key@.len() + ENTRY_OVERHEAD
                &&& final(self).read_only_memtables == old(self).read_only_memtables
                &&& final(self).val_log.head_offset == out.offset
                &&& out.flush is None
            }),
            r matches Ok(out) ==> (out.rolled_over ==> {
                let sealed = final(self).sealed().last().1;
                &&& is_max_offset(old(self).active_memtable@, final(self).val_log.head_offset)
                &&& final(self).sealed() == old(self).sealed().push((table_id@, sealed))
                &&& sealed@ == old(self).active_memtable@.insert(
                    head_entry_key(),
                    (final(self).val_log.head_offset, sealed_at, false),
                )
                &&& sealed.read_only
                &&& final(self).active_memtable@ == empty_index().insert(
                    key@,
                    (out.offset, created_at, is_tombstone),
                )
                &&& final(self).active_memtable.size == key@.len() + ENTRY_OVERHEAD
                &&& out.flush is Some <==> final(self).sealed().len()
                    > old(self).config.max_buffer_write_number
                &&& out.flush matches Some(id) ==> id@ == final(self).sealed()[0].0
            }),
    {
        if is_reserved_key(key) {
            return Err(StorageEngineError::ReservedKeyError);
        }
        if key.len() > u32::MAX as usize || value.len() > u32::MAX as usize {
            return Err(StorageEngineError::VLogFileWriteError(String::new()));
        }
        let fits = match VLOG_HEADER_LEN.checked_add(key.len()) {
            Some(a) => match a.checked_add(value.len()) {
                Some(b) => self.val_log.size.checked_add(b).is_some(),
                None => false,
            },
            None => false,
        };
        if !fits {
            return Err(StorageEngineError::VLogFileWriteError(String::new()));
        }
        let offset_ahead = self.val_log.size;
        let rollover = self.active_memtable.is_full(SENTINEL_KEY_LEN);
        let mut head_offset: usize = 0;
        if rollover {
            let entries = self.active_memtable.entries();
            if entries.len() == 0 {
                proof {
                    assert(self.active_memtable@ =~= empty_index());
                }
                return Err(StorageEngineError::BiggestKeyIndexError);
            }
            proof {
                assert(self.active_memtable@.dom().contains(entries@[0].key@));
            }
            head_offset = largest_offset(&entries);
            proof {
                lemma_largest_offset(entries@, self.active_memtable@, head_offset);
            }
            let sentinel_fits = self.active_memtable.size.checked_add(
                SENTINEL_KEY_LEN + ENTRY_OVERHEAD,
            ).is_some();
            let key_fits = key.len().checked_add(ENTRY_OVERHEAD).is_some();
            let id_taken = self.sealed_position(&table_id).is_some();
            if !sentinel_fits || !key_fits || id_taken {
                return Err(
                    StorageEngineError::InsertToMemTableFailedError {
                        key: String::new(),
                        value_offset: offset_ahead,
                    },
                );
            }
        } else {
            let key_fits = match key.len().checked_add(ENTRY_OVERHEAD) {
                Some(n) => self.active_memtable.size.checked_add(n).is_some(),
                None => false,
            };
            if !key_fits {
                return Err(
                    StorageEngineError::InsertToMemTableFailedError {
                        key: String::new(),
                        value_offset: offset_ahead,
                    },
                );
            }
        }
        let (offset, record) = self.val_log.append(key, value, created_at, is_tombstone);
        let mut flush: Option<Vec<u8>> = None;
        if rollover {
            self.val_log.set_head(head_offset);
            let head_entry = Entry::new(head_key(), head_offset, sealed_at, false);
            let sealed_ok = self.active_memtable.insert(&head_entry);
            assert(sealed_ok is Ok);
            self.active_memtable.read_only = true;
            let mut table = InMemoryTable::with_specified_capacity_and_rate(
                self.active_memtable.size_unit,
                self.active_memtable.capacity,
                self.active_memtable.false_positive_rate,
            );
            std::mem::swap(&mut self.active_memtable, &mut table);
            let ghost before = self.sealed();
            let ghost sealed = table;
            sealed_insert(&mut self.read_only_memtables, table_id, table);
            proof {
                let after = self.sealed();
                assert(after == before.push((table_id@, sealed)));
                assert forall|i: int| 0 <= i < after.len() implies (#[trigger] after[i]).1.wf() by {
                    if i < before.len() {
                        assert(after[i] == before[i]);
                    }
                }
            }
            if sealed_len(&self.read_only_memtables) > self.config.max_buffer_write_number {
                let (oldest, _) = sealed_get_index(&self.read_only_memtables, 0);
                flush = Some(clone_key(oldest));
            }
        }
        let ghost before_insert = self.active_memtable@;
        let entry = Entry::new(key_from_slice(key), offset, created_at, is_tombstone);
        let stored = self.active_memtable.insert(&entry);
        assert(stored is Ok);
        if created_at > self.last_write_stamp {
            self.last_write_stamp = created_at;
        }
        proof {
            if old(self).stamped() {
                assert forall|k: Seq<u8>|
                    !is_reserved(k) && #[trigger] self.active_memtable@.dom().contains(
                        k,
                    ) implies self.active_memtable@[k].1 <= self.last_write_stamp by {
                    if k != key@ {
                        assert(before_insert.dom().contains(k));
                        assert(old(self).active_memtable@.dom().contains(k));
                    }
                }
                assert forall|i: int, k: Seq<u8>|
                    0 <= i < self.sealed().len() && !is_reserved(k)
                        && #[trigger] self.sealed()[i].1@.dom().contains(
                        k,
                    ) implies self.sealed()[i].1@[k].1 <= self.last_write_stamp by {
                    if i < old(self).sealed().len() {
                        assert(self.sealed()[i] == old(self).sealed()[i]);
                        assert(old(self).sealed()[i].1@.dom().contains(k));
                    } else {
                        assert(k != head_entry_key());
                        assert(old(self).active_memtable@.dom().contains(k));
                    }
                }
            }
        }
        proof {
            if rollover {
                assert(self.sealed().subrange(0, old(self).sealed().len() as int) =~= old(self).sealed());
            }
            if old(self).faithful() {
                let log0 = old(self).val_log.log@;
                let log1 = self.val_log.log@;
                assert(log1 == log0 + record@);
                lemma_points_into_extend(old(self).active_memtable@, log0, record@);
                assert forall|k: Seq<u8>| #[trigger]
                    self.active_memtable@.dom().contains(k) && !is_reserved(k) implies matches_record(
                    k,
                    self.active_memtable@[k],
                    log1,
                ) by {
                    if k != key@ {
                        assert(before_insert.dom().contains(k));
                        assert(old(self).active_memtable@.dom().contains(k));
                    }
                }
                assert forall|i: int| 0 <= i < self.sealed().len() implies points_into(
                    (#[trigger] self.sealed()[i]).1@,
                    log1,
                ) by {
                    if i < old(self).sealed().len() {
                        assert(self.sealed()[i] == old(self).sealed()[i]);
                        lemma_points_into_extend(old(self).sealed()[i].1@, log0, record@);
                    } else {
                        let table = self.sealed()[i].1@;
                        assert forall|k: Seq<u8>| #[trigger]
                            table.dom().contains(k) && !is_reserved(k) implies matches_record(
                            k,
                            table[k],
                            log1,
                        ) by {
                            assert(k != head_entry_key());
                            assert(old(self).active_memtable@.dom().contains(k));
                        }
                    }
                }
            }
        }
        Ok(WriteOutcome { offset, record, rolled_over: rollover, flush })
    }

    /// Stores `value` under `key`, at the time the wall clock shows.
    ///
    /// The record goes to the value log first and the entry to the active
    /// memtable after it; the outcome holds the bytes to append to the log.
    pub fn put(&mut self, key: &str, value: &str) -> (r: Result<WriteOutcome, StorageEngineError>)
        requires
            old(self).wf(),
        ensures
            r is Ok ==> old(self).accepts(key.spec_bytes(), value.spec_bytes()),
            old(self).accepts(key.spec_bytes(), value.spec_bytes()) && old(self).seals_freely()
                ==> r is Ok,
            r is Err ==> *final(self) == *old(self),
            r matches Ok(out) ==> {
                &&& final(self).wf()
                &&& out.offset == old(self).val_log.size
                &&& final(self).val_log.log@ == old(self).val_log.log@ + out.record@
                &&& record_at(final(self).val_log.log@, out.offset as int) matches Some(rec)
                &&& rec.key == key.spec_bytes()
                &&& rec.value == value.spec_bytes()
                &&& !rec.is_tombstone
                &&& out.record@ == record_bytes(rec)
                &&& final(self).memtable_entry(key.spec_bytes()) == Some(
                    (out.offset, rec.created_at, false),
                )
                &&& final(self).wrote(
                    old(self),
                    key.spec_bytes(),
                    value.spec_bytes(),
                    false,
                    rec.created_at,
                    out.offset,
                )
                &&& out.rolled_over == old(self).needs_rollover()
                &&& out.flush is Some <==> out.rolled_over && final(self).sealed().len()
                    > old(self).config.max_buffer_write_number
                &&& out.flush matches Some(id) ==> id@ == final(self).sealed()[0].0
                &&& old(self).faithful() ==> final(self).faithful()
                &&& old(self).stamped() ==> final(self).stamped()
                &&& rec.created_at > old(self).last_write_stamp || rec.created_at == u64::MAX
                &&& final(self).last_write_stamp == rec.created_at
                &&& old(self).in_step() && old(self).last_write_stamp < u64::MAX ==> final(self).in_step()
                &&& final(self).same_tables(old(self))
            },
    {
        let created_at = self.next_write_stamp();
        let table_id = InMemoryTable::generate_table_id();
        let r = self.write_at(
            key.as_bytes(),
            value.as_bytes(),
            false,
            created_at,
            created_at,
            table_id,
        );
        proof {
            if r is Ok && old(self).in_step() && old(self).last_write_stamp < u64::MAX {
                lemma_write_keeps_in_step(
                    *old(self),
                    *self,
                    key.spec_bytes(),
                    value.spec_bytes(),
                    false,
                    created_at,
                    r->Ok_0.offset,
                );
            }
        }
        r
    }

    /// Stores `value` under `key`: the same as `put`.
    pub fn update(&mut self, key: &str, value: &str) -> (r: Result<
        WriteOutcome,
        StorageEngineError,
    >)
        requires
            old(self).wf(),
        ensures
            r is Ok ==> old(self).accepts(key.spec_bytes(), value.spec_bytes()),
            old(self).accepts(key.spec_bytes(), value.spec_bytes()) && old(self).seals_freely()
                ==> r is Ok,
            r is Err ==> *final(self) == *old(self),
            r matches Ok(out) ==> {
                &&& final(self).wf()
                &&& out.offset == old(self).val_log.size
                &&& final(self).val_log.log@ == old(self).val_log.log@ + out.record@
                &&& record_at(final(self).val_log.log@, out.offset as int) matches Some(rec)
                &&& rec.key == key.spec_bytes()
                &&& rec.value == value.spec_bytes()
                &&& !rec.is_tombstone
                &&& out.record@ == record_bytes(rec)
                &&& final(self).memtable_entry(key.spec_bytes()) == Some(
                    (out.offset, rec.created_at, false),
                )
                &&& final(self).wrote(
                    old(self),
                    key.spec_bytes(),
                    value.spec_bytes(),
                    false,
                    rec.created_at,
                    out.offset,
                )
                &&& out.rolled_over == old(self).needs_rollover()
                &&& out.flush is Some <==> out.rolled_over && final(self).sealed().len()
                    > old(self).config.max_buffer_write_number
                &&& out.flush matches Some(id) ==> id@ == final(self).sealed()[0].0
                &&& old(self).faithful() ==> final(self).faithful()
                &&& old(self).stamped() ==> final(self).stamped()
                &&& rec.created_at > old(self).last_write_stamp || rec.created_at == u64::MAX
                &&& final(self).last_write_stamp == rec.created_at
                &&& old(self).in_step() && old(self).last_write_stamp < u64::MAX ==> final(self).in_step()
                &&& final(self).same_tables(old(self))
            },
    {
        self.put(key, value)
    }

    /// Marks `key` as deleted, at the time the wall clock shows: writes a
    /// tombstone record and a tombstone entry. The key need not be known.
    pub fn delete(&mut self, key: &str) -> (r: Result<WriteOutcome, StorageEngineError>)
        requires
            old(self).wf(),
        ensures
            r is Ok ==> old(self).accepts(key.spec_bytes(), tombstone_value()),
            old(self).accepts(key.spec_bytes(), tombstone_value()) && old(self).seals_freely()
                ==> r is Ok,
            r is Err ==> *final(self) == *old(self),
            r matches Ok(out) ==> {
                &&& final(self).wf()
                &&& out.offset == old(self).val_log.size
                &&& final(self).val_log.log@ == old(self).val_log.log@ + out.record@
                &&& record_at(final(self).val_log.log@, out.offset as int) matches Some(rec)
                &&& rec.key == key.spec_bytes()
                &&& rec.value == tombstone_value()
                &&& rec.is_tombstone
                &&& out.record@ == record_bytes(rec)
                &&& final(self).memtable_entry(key.spec_bytes()) == Some(
                    (out.offset, rec.created_at, true),
                )
                &&& final(self).wrote(
                    old(self),
                    key.spec_bytes(),
                    tombstone_value(),
                    true,
                    rec.created_at,
                    out.offset,
                )
                &&& out.rolled_over == old(self).needs_rollover()
                &&& out.flush is Some <==> out.rolled_over && final(self).sealed().len()
                    > old(self).config.max_buffer_write_number
                &&& out.flush matches Some(id) ==> id@ == final(self).sealed()[0].0
                &&& old(self).faithful() ==> final(self).faithful()
                &&& old(self).stamped() ==> final(self).stamped()
                &&& rec.created_at > old(self).last_write_stamp || rec.created_at == u64::MAX
                &&& final(self).last_write_stamp == rec.created_at
                &&& old(self).in_step() && old(self).last_write_stamp < u64::MAX ==> final(self).in_step()
                &&& final(self).same_tables(old(self))
            },
    {
        let value = u32_to_le_bytes(TOMB_STONE_MARKER);
        let created_at = self.next_write_stamp();
        let table_id = InMemoryTable::generate_table_id();
        let r = self.write_at(
            key.as_bytes(),
            value.as_slice(),
            true,
            created_at,
            created_at,
            table_id,
        );
        proof {
            if r is Ok && old(self).in_step() && old(self).last_write_stamp < u64::MAX {
                lemma_write_keeps_in_step(
                    *old(self),
                    *self,
                    key.spec_bytes(),
                    tombstone_value(),
                    true,
                    created_at,
                    r->Ok_0.offset,
                );
            }
        }
        r
    }

    /// The first step of a read of `key`, decided from the memtables and the
    /// indices: the newest memtable entry settles it; without one, the tables
    /// to search are those whose key range reaches the key and whose filter
    /// reports it as possibly present.
    pub fn get(&self, key: &str) -> (r: ReadStep)
        requires
            self.wf(),
        ensures
            self.is_read_plan(key.spec_bytes(), r),
            self.chronological() && !is_reserved(key.spec_bytes()) ==> self.is_tiered_read_plan(
                key.spec_bytes(),
                r,
            ),
    {
        let key_bytes = key_from_slice(key.as_bytes());
        self.get_bytes(&key_bytes)
    }

    /// The first step of a read of the binary key `key`.
    pub fn get_bytes(&self, key: &Vec<u8>) -> (r: ReadStep)
        requires
            self.wf(),
        ensures
            self.is_read_plan(key@, r),
            self.chronological() && !is_reserved(key@) ==> self.is_tiered_read_plan(key@, r),
    {
        proof {
            if self.chronological() && !is_reserved(key@) {
                lemma_newest_hit_is_latest(self.sealed(), key@);
            }
        }
        match self.lookup_memtables(key) {
            Some((offset, created_at, is_tombstone)) => {
                if is_tombstone {
                    ReadStep::Failed(StorageEngineError::KeyFoundAsTombstoneInMemtableError)
                } else {
                    ReadStep::ReadValue { offset, created_at }
                }
            },
            None => {
                let sstables_within_key_range =
                    self.biggest_key_index.filter_sstables_by_biggest_key(key);
                if sstables_within_key_range.len() == 0 {
                    return ReadStep::Failed(StorageEngineError::KeyNotFoundInAnySSTableError);
                }
                let bloom_filters_within_key_range = BloomFilter::bloom_filters_within_key_range(
                    &self.bloom_filters,
                    &sstables_within_key_range,
                );
                if bloom_filters_within_key_range.len() == 0 {
                    return ReadStep::Failed(StorageEngineError::KeyNotFoundByAnyBloomFilterError);
                }
                proof {
                    lemma_filters_of_wf(self.bloom_filters@, sstables_within_key_range@);
                    let picked = filters_of(self.bloom_filters@, sstables_within_key_range@);
                    assert forall|i: int|
                        0 <= i < bloom_filters_within_key_range@.len() implies (
                    #[trigger] bloom_filters_within_key_range@[i]).wf() by {
                        assert(picked[i] == *bloom_filters_within_key_range@[i]);
                        assert(picked[i].wf());
                    }
                }
                match BloomFilter::sstables_within_key_range(
                    &bloom_filters_within_key_range,
                    key,
                ) {
                    Some(tables) => ReadStep::SearchTables(tables),
                    None => ReadStep::Failed(StorageEngineError::KeyNotFoundInAnySSTableError),
                }
            },
        }
    }

    /// Writes `memtable` out as a sorted table made at `created_at`: encodes
    /// its entries, places the table in a bucket (a new one goes by
    /// `fresh_id`), ties a copy of the memtable's filter to the table and
    /// registers the table's key envelope.
    ///
    /// Fails, changing nothing, where the memtable is empty, where one of its
    /// keys is too long for the table format, where a new bucket is called for
    /// and `fresh_id` is taken, or where a table with the same data file is
    /// registered already.
    #[verifier::rlimit(30)]
    pub fn flush_into(
        buckets: &mut BucketMap,
        bloom_filters: &mut Vec<BloomFilter>,
        key_index: &mut KeyRange,
        config: &Config,
        memtable: &InMemoryTable,
        hotness: u64,
        created_at: u64,
        fresh_id: BucketID,
    ) -> (r: Result<FlushedTable, StorageEngineError>)
        requires
            old(buckets).wf(),
            old(key_index).wf(),
        ensures
            r matches Err(e) ==> {
                &&& *final(buckets) == *old(buckets)
                &&& *final(bloom_filters) == *old(bloom_filters)
                &&& *final(key_index) == *old(key_index)
                &&& e is BiggestKeyIndexError <==> memtable@ == empty_index()
                &&& e is FailedToInsertToBucket <==> memtable@ != empty_index()
            },
            r is Ok <==> can_flush(
                *old(buckets),
                *old(key_index),
                *config,
                memtable@,
                created_at,
                fresh_id,
            ),
            r matches Ok(flushed) ==> {
                let table = flushed.table;
                let path = table.data_file_path@;
                let before = old(buckets).buckets@;
                let after = final(buckets).buckets@;
                let at = first_fit(
                    before,
                    table.size,
                    config.size_tier_low_percent,
                    config.size_tier_high_percent,
                );
                &&& final(buckets).wf()
                &&& final(key_index).wf()
                &&& final(buckets).dir == old(buckets).dir
                &&& is_image_of(flushed.files, memtable@, effective_interval(*config))
                &&& table.size == flushed.files.data@.len()
                &&& is_handle(
                    table,
                    old(buckets).target_dir(
                        table.size,
                        fresh_id,
                        config.size_tier_low_percent,
                        config.size_tier_high_percent,
                    ),
                    created_at,
                    hotness,
                    table.size,
                )
                &&& forall|i: int| 0 <= i < before.len() && i != at ==> after[i] == before[i]
                &&& at < before.len() ==> after.len() == before.len() && grown_by(
                    before[at],
                    after[at],
                    table,
                )
                &&& at == before.len() ==> {
                    &&& after.len() == before.len() + 1
                    &&& after[at].id == fresh_id
                    &&& after[at].dir@ == bucket_dir_name(old(buckets).dir@, fresh_id)
                    &&& after[at].sstables@ == seq![table]
                    &&& after[at].avarage_size == table.size
                }
                &&& final(bloom_filters)@.len() == old(bloom_filters)@.len() + 1
                &&& final(bloom_filters)@.subrange(0, old(bloom_filters)@.len() as int) == old(bloom_filters)@
                &&& final(bloom_filters)@.last().sstable_path == Some(table)
                &&& final(bloom_filters)@.last().bit_vec@ == memtable.bloom_filter.bit_vec@
                &&& final(bloom_filters)@.last().no_of_hash_func
                    == memtable.bloom_filter.no_of_hash_func
                &&& !old(key_index)@.dom().contains(path)
                &&& final(key_index)@.dom() == old(key_index)@.dom().insert(path)
                &&& forall|p: Seq<char>|
                    old(key_index)@.dom().contains(p) ==> final(key_index)@[p] == old(key_index)@[p]
                &&& final(key_index)@[path].sst == table
                &&& is_envelope(
                    memtable@,
                    final(key_index)@[path].smallest_key@,
                    final(key_index)@[path].biggest_key@,
                )
            },
    {
        let smallest = match memtable.find_smallest_key() {
            Ok(k) => k,
            Err(e) => {
                return Err(e);
            },
        };
        let biggest = match memtable.find_biggest_key() {
            Ok(k) => k,
            Err(e) => {
                return Err(e);
            },
        };
        let interval = if config.sparse_interval == 0 {
            1
        } else {
            config.sparse_interval
        };
        let entries = memtable.entries();
        let files = match SSTable::encode(&entries, interval) {
            Some(files) => files,
            None => {
                proof {
                    let i = choose|i: int|
                        0 <= i < entries@.len() && !item_encodable(
                            #[trigger] items_of(entries@)[i],
                        );
                    assert(memtable@.dom().contains(entries@[i].key@));
                }
                return Err(StorageEngineError::FailedToInsertToBucket(String::new()));
            },
        };
        proof {
            assert forall|k: Seq<u8>| memtable@.dom().contains(k) implies k.len() <= u32::MAX by {
                let i = choose|i: int| 0 <= i < entries@.len() && entries@[i].key@ == k;
                assert(item_encodable(items_of(entries@)[i]));
            }
        }
        let size = files.data.len() as u64;
        proof {
            lemma_image_size(entries@, memtable@);
            assert(size == image_size(memtable@) as u64);
        }
        let planned = buckets.plan_table(
            size,
            hotness,
            created_at,
            fresh_id,
            config.size_tier_low_percent,
            config.size_tier_high_percent,
        );
        if key_index.contains_path(&planned.data_file_path) {
            return Err(StorageEngineError::FailedToInsertToBucket(String::new()));
        }
        let table = match buckets.place_table(
            size,
            hotness,
            created_at,
            fresh_id,
            config.size_tier_low_percent,
            config.size_tier_high_percent,
        ) {
            Ok(table) => table,
            Err(e) => {
                return Err(e);
            },
        };
        let mut filter = memtable.get_bloom_filter();
        filter.set_sstable_path(table.clone());
        let ghost filters_before = bloom_filters@;
        bloom_filters.push(filter);
        proof {
            assert(bloom_filters@.subrange(0, filters_before.len() as int) =~= filters_before);
        }
        let had = key_index.set(table.get_data_file_path(), smallest, biggest, table.clone());
        proof {
            assert(!had);
            assert(key_index@.dom() =~= old(key_index)@.dom().insert(table.data_file_path@));
        }
        Ok(FlushedTable { table, files })
    }

    /// Writes the memtable at `position` out as a sorted table made at
    /// `created_at` and registers the table. The memtable itself stays where
    /// it is. A failure changes nothing.
    pub fn flush_memtable_at(
        &mut self,
        position: Option<usize>,
        hotness: u64,
        created_at: u64,
        fresh_id: BucketID,
    ) -> (r: Result<FlushedTable, StorageEngineError>)
        requires
            old(self).wf(),
            position matches Some(i) ==> i < old(self).sealed().len(),
        ensures
            final(self).wf(),
            final(self).same_memtables(old(self)),
            r is Ok <==> old(self).can_flush_at(position, created_at, fresh_id),
            r matches Err(e) ==> {
                &&& *final(self) == *old(self)
                &&& e is BiggestKeyIndexError <==> old(self).memtable_at(position)@
                    == empty_index()
                &&& e is FailedToInsertToBucket <==> old(self).memtable_at(position)@
                    != empty_index()
            },
            r matches Ok(flushed) ==> final(self).registered(
                old(self),
                old(self).memtable_at(position),
                flushed,
            ) && final(self).last_table_stamp == if created_at > old(self).last_table_stamp {
                created_at
            } else {
                old(self).last_table_stamp
            },
    {
        let r = match position {
            None => Self::flush_into(
                &mut self.buckets,
                &mut self.bloom_filters,
                &mut self.biggest_key_index,
                &self.config,
                &self.active_memtable,
                hotness,
                created_at,
                fresh_id,
            ),
            Some(i) => {
                let (_, table) = sealed_get_index(&self.read_only_memtables, i);
                assert(old(self).sealed()[i as int].1.wf());
                Self::flush_into(
                    &mut self.buckets,
                    &mut self.bloom_filters,
                    &mut self.biggest_key_index,
                    &self.config,
                    table,
                    hotness,
                    created_at,
                    fresh_id,
                )
            },
        };
        if r.is_ok() && created_at > self.last_table_stamp {
            self.last_table_stamp = created_at;
        }
        proof {
            if r is Ok {
                let table = r->Ok_0.table;
                let at = first_fit(
                    old(self).buckets.buckets@,
                    table.size,
                    self.config.size_tier_low_percent,
                    self.config.size_tier_high_percent,
                );
                lemma_first_fit_in_range(
                    old(self).buckets.buckets@,
                    table.size,
                    self.config.size_tier_low_percent,
                    self.config.size_tier_high_percent,
                );
                assert(placed_in(old(self).buckets.buckets@, self.buckets.buckets@, table, at));
                lemma_placing_keeps_buckets(
                    old(self).buckets.buckets@,
                    self.buckets.buckets@,
                    table,
                    at,
                );
                let n = old(self).bloom_filters@.len() as int;
                assert forall|i: int| 0 <= i < self.bloom_filters@.len() implies (
                #[trigger] self.bloom_filters@[i]).wf() && self.bloom_filters@[i].sstable_path
                    is Some by {
                    if i < n {
                        assert(self.bloom_filters@.subrange(0, n)[i] == old(self).bloom_filters@[i]);
                    } else {
                        assert(self.bloom_filters@[i] == self.bloom_filters@.last());
                        assert(old(self).memtable_at(position).wf());
                    }
                }
            }
        }
        r
    }

    /// Whether `planned` is a write that this engine takes: the engine accepts
    /// it and can seal its active memtable under the identifier that was
    /// drawn, the record is the record of the write and starts at the end of
    /// the value log, and the creation time is later than any that the engine
    /// has given out.
    pub open spec fn is_planned(&self, planned: PlannedWrite) -> bool {
        &&& self.accepts(planned.key@, planned.value@)
        &&& self.can_seal_as(planned.table_id@)
        &&& planned.offset == self.val_log.size
        &&& planned.record@ == record_bytes(
            (Record {
                key: planned.key@,
                value: planned.value@,
                created_at: planned.created_at,
                is_tombstone: planned.is_tombstone,
            }),
        )
        &&& planned.created_at > self.last_write_stamp || planned.created_at == u64::MAX
    }

    /// Checks a write without making it: whether the engine would take a
    /// record for `key` and `value`, sealing its active memtable under
    /// `table_id` should that be called for. The errors are those of the write
    /// itself.
    pub fn check_write(&self, key: &[u8], value: &[u8], table_id: &Vec<u8>) -> (r: Result<
        (),
        StorageEngineError,
    >)
        requires
            self.wf(),
        ensures
            r is Ok <==> self.accepts(key@, value@) && self.can_seal_as(table_id@),
            r matches Err(e) ==> {
                &&& e is ReservedKeyError <==> is_reserved(key@)
                &&& e is VLogFileWriteError <==> !is_reserved(key@) && !self.record_fits(key@, value@)
                &&& e is BiggestKeyIndexError <==> !is_reserved(key@) && self.record_fits(
                    key@,
                    value@,
                ) && self.needs_rollover() && self.active_memtable@ == empty_index()
                &&& e is InsertToMemTableFailedError <==> !is_reserved(key@) && self.record_fits(
                    key@,
                    value@,
                ) && !(self.needs_rollover() && self.active_memtable@ == empty_index()) && (
                !self.entry_fits(key@) || !self.can_seal_as(table_id@))
            },
    {
        if is_reserved_key(key) {
            return Err(StorageEngineError::ReservedKeyError);
        }
        if key.len() > u32::MAX as usize || value.len() > u32::MAX as usize {
            return Err(StorageEngineError::VLogFileWriteError(String::new()));
        }
        let fits = match VLOG_HEADER_LEN.checked_add(key.len()) {
            Some(a) => match a.checked_add(value.len()) {
                Some(b) => self.val_log.size.checked_add(b).is_some(),
                None => false,
            },
            None => false,
        };
        if !fits {
            return Err(StorageEngineError::VLogFileWriteError(String::new()));
        }
        let key_fits = key.len().checked_add(ENTRY_OVERHEAD).is_some();
        let fails = if self.active_memtable.is_full(SENTINEL_KEY_LEN) {
            let entries = self.active_memtable.entries();
            if entries.len() == 0 {
                proof {
                    assert(self.active_memtable@ =~= empty_index());
                }
                return Err(StorageEngineError::BiggestKeyIndexError);
            }
            proof {
                assert(self.active_memtable@.dom().contains(entries@[0].key@));
            }
            let sentinel_fits = self.active_memtable.size.checked_add(
                SENTINEL_KEY_LEN + ENTRY_OVERHEAD,
            ).is_some();
            !sentinel_fits || !key_fits || self.sealed_position(table_id).is_some()
        } else {
            match key.len().checked_add(ENTRY_OVERHEAD) {
                Some(n) => self.active_memtable.size.checked_add(n).is_none(),
                None => true,
            }
        };
        if fails {
            return Err(
                StorageEngineError::InsertToMemTableFailedError {
                    key: String::new(),
                    value_offset: self.val_log.size,
                },
            );
        }
        Ok(())
    }

    /// Plans a write without making it: draws the creation time and the
    /// memtable identifier, checks the write, and hands back the record to
    /// append to the value log. The engine takes the write with `commit`, once
    /// the record is on disk.
    pub fn plan_write(&self, key: &[u8], value: &[u8], is_tombstone: bool) -> (r: Result<
        PlannedWrite,
        StorageEngineError,
    >)
        requires
            self.wf(),
        ensures
            r is Ok ==> self.accepts(key@, value@),
            self.accepts(key@, value@) && self.seals_freely() ==> r is Ok,
            r matches Ok(planned) ==> {
                &&& self.is_planned(planned)
                &&& planned.key@ == key@
                &&& planned.value@ == value@
                &&& planned.is_tombstone == is_tombstone
            },
    {
        let created_at = self.next_write_stamp();
        let table_id = InMemoryTable::generate_table_id();
        match self.check_write(key, value, &table_id) {
            Ok(()) => {},
            Err(e) => {
                return Err(e);
            },
        }
        let record = ValueLog::encode(key, value, created_at, is_tombstone);
        Ok(
            PlannedWrite {
                key: key_from_slice(key),
                value: key_from_slice(value),
                is_tombstone,
                created_at,
                table_id,
                offset: self.val_log.size,
                record,
            },
        )
    }

    /// Plans the write of `value` under `key`.
    pub fn plan_put(&self, key: &str, value: &str) -> (r: Result<PlannedWrite, StorageEngineError>)
        requires
            self.wf(),
        ensures
            r is Ok ==> self.accepts(key.spec_bytes(), value.spec_bytes()),
            self.accepts(key.spec_bytes(), value.spec_bytes()) && self.seals_freely() ==> r is Ok,
            r matches Ok(planned) ==> {
                &&& self.is_planned(planned)
                &&& planned.key@ == key.spec_bytes()
                &&& planned.value@ == value.spec_bytes()
                &&& !planned.is_tombstone
            },
    {
        self.plan_write(key.as_bytes(), value.as_bytes(), false)
    }

    /// Plans the write of a tombstone for `key`.
    pub fn plan_delete(&self, key: &str) -> (r: Result<PlannedWrite, StorageEngineError>)
        requires
            self.wf(),
        ensures
            r is Ok ==> self.accepts(key.spec_bytes(), tombstone_value()),
            self.accepts(key.spec_bytes(), tombstone_value()) && self.seals_freely() ==> r is Ok,
            r matches Ok(planned) ==> {
                &&& self.is_planned(planned)
                &&& planned.key@ == key.spec_bytes()
                &&& planned.value@ == tombstone_value()
                &&& planned.is_tombstone
            },
    {
        let value = u32_to_le_bytes(TOMB_STONE_MARKER);
        self.plan_write(key.as_bytes(), value.as_slice(), true)
    }

    /// Makes a write that was planned: the engine takes the record as
    /// `write_at` does. A write that was planned for the engine as it stands
    /// goes through, and its record is the record that was planned.
    pub fn commit(&mut self, planned: PlannedWrite) -> (r: Result<WriteOutcome, StorageEngineError>)
        requires
            old(self).wf(),
        ensures
            r is Ok <==> old(self).accepts(planned.key@, planned.value@) && old(self).can_seal_as(
                planned.table_id@,
            ),
            old(self).is_planned(planned) ==> r is Ok,
            r is Err ==> *final(self) == *old(self),
            r matches Ok(out) ==> {
                &&& final(self).wf()
                &&& out.offset == old(self).val_log.size
                &&& out.record@ == record_bytes(
                    (Record {
                        key: planned.key@,
                        value: planned.value@,
                        created_at: planned.created_at,
                        is_tombstone: planned.is_tombstone,
                    }),
                )
                &&& old(self).is_planned(planned) ==> out.offset == planned.offset && out.record@
                    == planned.record@
                &&& final(self).val_log.log@ == old(self).val_log.log@ + out.record@
                &&& final(self).memtable_entry(planned.key@) == Some(
                    (out.offset, planned.created_at, planned.is_tombstone),
                )
                &&& final(self).wrote(
                    old(self),
                    planned.key@,
                    planned.value@,
                    planned.is_tombstone,
                    planned.created_at,
                    out.offset,
                )
                &&& out.rolled_over == old(self).needs_rollover()
                &&& out.flush is Some <==> out.rolled_over && final(self).sealed().len()
                    > old(self).config.max_buffer_write_number
                &&& out.flush matches Some(id) ==> id@ == final(self).sealed()[0].0
                &&& old(self).faithful() ==> final(self).faithful()
                &&& old(self).stamped() ==> final(self).stamped()
                &&& old(self).in_step() && planned.created_at > old(self).last_write_stamp
                    ==> final(self).in_step()
                &&& final(self).same_tables(old(self))
            },
    {
        let created_at = planned.created_at;
        let r = self.write_at(
            planned.key.as_slice(),
            planned.value.as_slice(),
            planned.is_tombstone,
            created_at,
            created_at,
            planned.table_id,
        );
        proof {
            if r is Ok && old(self).in_step() && created_at > old(self).last_write_stamp {
                lemma_write_keeps_in_step(
                    *old(self),
                    *self,
                    planned.key@,
                    planned.value@,
                    planned.is_tombstone,
                    created_at,
                    r->Ok_0.offset,
                );
            }
        }
        r
    }

    /// The creation time of the next record: the time the wall clock shows,
    /// or the time just after the latest record was created, should the clock
    /// not have moved on since. So creation times ascend strictly from record
    /// to record, whatever the clock does.
    pub fn next_write_stamp(&self) -> (r: u64)
        ensures
            r > self.last_write_stamp || r == u64::MAX,
    {
        let now = now_millis();
        if now > self.last_write_stamp {
            now
        } else if self.last_write_stamp < u64::MAX {
            self.last_write_stamp + 1
        } else {
            u64::MAX
        }
    }

    /// The time under which the next sorted table is made: the time the wall
    /// clock shows, or the time just after the latest table was made, should
    /// the clock not have moved on since.
    pub fn next_table_stamp(&self) -> (r: u64)
        ensures
            r > self.last_table_stamp || r == u64::MAX,
    {
        let now = now_millis();
        if now > self.last_table_stamp {
            now
        } else if self.last_table_stamp < u64::MAX {
            self.last_table_stamp + 1
        } else {
            u64::MAX
        }
    }

    /// Writes the memtable at `position` out as a sorted table, at the time
    /// the wall clock shows, and registers the table. A new bucket, should one
    /// be called for, goes by a random identifier.
    pub fn flush_memtable(&mut self, position: Option<usize>, hotness: u64) -> (r: Result<
        FlushedTable,
        StorageEngineError,
    >)
        requires
            old(self).wf(),
            position matches Some(i) ==> i < old(self).sealed().len(),
        ensures
            final(self).wf(),
            final(self).same_memtables(old(self)),
            r matches Err(e) ==> {
                &&& *final(self) == *old(self)
                &&& e is BiggestKeyIndexError <==> old(self).memtable_at(position)@
                    == empty_index()
                &&& e is FailedToInsertToBucket <==> old(self).memtable_at(position)@
                    != empty_index()
            },
            r matches Ok(flushed) ==> final(self).registered(
                old(self),
                old(self).memtable_at(position),
                flushed,
            ),
            old(self).always_flushes(position) ==> r is Ok,
            old(self).never_flushes(position) ==> r is Err,
            r is Ok ==> exists|created_at: u64, fresh_id: BucketID|
                old(self).is_table_stamp(created_at) && #[trigger] old(self).can_flush_at(
                    position,
                    created_at,
                    fresh_id,
                ),
    {
        let created_at = self.next_table_stamp();
        let fresh_id = random_uuid();
        self.flush_memtable_at(position, hotness, created_at, fresh_id)
    }

    /// The place in the queue of the sealed memtable that goes by `id`.
    pub fn sealed_position(&self, id: &Vec<u8>) -> (r: Option<usize>)
        ensures
            r is Some <==> has_id(self.sealed(), id@),
            r matches Some(i) ==> i < self.sealed().len() && self.sealed()[i as int].0 == id@
                && forall|j: int| 0 <= j < i ==> (#[trigger] self.sealed()[j]).0 != id@,
    {
        find_sealed(&self.read_only_memtables, id)
    }

    /// Whether this engine is `before` after the sealed memtable at place `i`
    /// of its queue was flushed into `flushed`: the table was registered for
    /// that memtable, and the memtable left the queue, the others keeping
    /// their order. The active memtable and the value log are as they were.
    pub open spec fn flushed_out(&self, before: &StorageEngine, i: int, flushed: FlushedTable) -> bool {
        &&& 0 <= i < before.sealed().len()
        &&& self.registered(before, before.sealed()[i].1, flushed)
        &&& self.sealed() == before.sealed().remove(i)
        &&& self.active_memtable == before.active_memtable
        &&& self.val_log == before.val_log
        &&& self.dir == before.dir
        &&& self.config == before.config
    }

    /// Flushes the sealed memtable that goes by `id`, as a sorted table made
    /// at `created_at`, and takes it out of the queue: writes it out,
    /// registers the table (a new bucket goes by `fresh_id`), and only then
    /// forgets the memtable. Of several memtables that go by `id` the oldest is
    /// flushed. `Ok(None)` where no sealed memtable goes by `id`. A failure
    /// changes nothing.
    pub fn flush_read_only_at(
        &mut self,
        id: &Vec<u8>,
        hotness: u64,
        created_at: u64,
        fresh_id: BucketID,
    ) -> (r: Result<Option<FlushedTable>, StorageEngineError>)
        requires
            old(self).wf(),
        ensures
            final(self).wf(),
            !has_id(old(self).sealed(), id@) ==> (r matches Ok(out) && out is None && *final(self)
                == *old(self)),
            has_id(old(self).sealed(), id@) ==> {
                let i = first_with_id(old(self).sealed(), id@);
                &&& is_first_with_id(old(self).sealed(), id@, i)
                &&& r is Ok <==> old(self).can_flush_at(Some(i as usize), created_at, fresh_id)
                &&& r matches Err(e) ==> {
                    &&& *final(self) == *old(self)
                    &&& e is BiggestKeyIndexError <==> old(self).sealed()[i].1@ == empty_index()
                    &&& e is FailedToInsertToBucket <==> old(self).sealed()[i].1@
                        != empty_index()
                }
                &&& r matches Ok(out) ==> (out matches Some(flushed) && final(self).flushed_out(
                    old(self),
                    i,
                    flushed,
                ) && final(self).last_table_stamp == if created_at > old(self).last_table_stamp {
                    created_at
                } else {
                    old(self).last_table_stamp
                })
            },
    {
        let position = match self.sealed_position(id) {
            Some(i) => i,
            None => {
                return Ok(None);
            },
        };
        proof {
            lemma_first_with_id(self.sealed(), id@, position as int);
        }
        let flushed = match self.flush_memtable_at(Some(position), hotness, created_at, fresh_id) {
            Ok(flushed) => flushed,
            Err(e) => {
                return Err(e);
            },
        };
        let ghost before = self.sealed();
        let _ = sealed_shift_remove_index(&mut self.read_only_memtables, position);
        proof {
            let after = self.sealed();
            assert forall|i: int| 0 <= i < after.len() implies (#[trigger] after[i]).1.wf() by {
                if i < position {
                    assert(after[i] == before[i]);
                } else {
                    assert(after[i] == before[i + 1]);
                }
            }
        }
        Ok(Some(flushed))
    }

    /// Flushes the sealed memtable that goes by `id` and takes it out of the
    /// queue: writes it out as a sorted table at the time the wall clock
    /// shows, registers the table, and only then forgets the memtable. Of
    /// several memtables that go by `id` the oldest is flushed. `Ok(None)`
    /// where no sealed memtable goes by `id`. A failure changes nothing.
    ///
    /// Where a memtable goes by `id`, the flush succeeds if it can succeed
    /// whatever the clock shows and whatever identifier is drawn for a new
    /// bucket, and fails if it can succeed for none.
    pub fn flush_read_only(&mut self, id: &Vec<u8>, hotness: u64) -> (r: Result<
        Option<FlushedTable>,
        StorageEngineError,
    >)
        requires
            old(self).wf(),
        ensures
            final(self).wf(),
            final(self).active_memtable == old(self).active_memtable,
            final(self).val_log == old(self).val_log,
            !has_id(old(self).sealed(), id@) ==> (r matches Ok(out) && out is None && *final(self)
                == *old(self)),
            has_id(old(self).sealed(), id@) ==> {
                let i = first_with_id(old(self).sealed(), id@);
                &&& is_first_with_id(old(self).sealed(), id@, i)
                &&& old(self).always_flushes(Some(i as usize)) ==> r is Ok
                &&& old(self).never_flushes(Some(i as usize)) ==> r is Err
                &&& r matches Err(e) ==> {
                    &&& *final(self) == *old(self)
                    &&& e is BiggestKeyIndexError <==> old(self).sealed()[i].1@ == empty_index()
                    &&& e is FailedToInsertToBucket <==> old(self).sealed()[i].1@
                        != empty_index()
                }
                &&& r matches Ok(out) ==> (out matches Some(flushed) && final(self).flushed_out(
                    old(self),
                    i,
                    flushed,
                ) && exists|created_at: u64, fresh_id: BucketID|
                    old(self).is_table_stamp(created_at) && #[trigger] old(self).can_flush_at(
                        Some(i as usize),
                        created_at,
                        fresh_id,
                    ))
            },
    {
        if self.sealed_position(id).is_none() {
            return Ok(None);
        }
        let created_at = self.next_table_stamp();
        let fresh_id = random_uuid();
        self.flush_read_only_at(id, hotness, created_at, fresh_id)
    }

    /// Flushes every memtable: writes the active memtable and then each
    /// sealed one, oldest first, out as a sorted table of its own, registers
    /// the tables, moves the filters of the hottest tables to the front,
    /// empties the active memtable and drops the sealed ones.
    ///
    /// The outcome lists the tables in the order in which they were made: the
    /// table of the active memtable first. On a failure the memtables are as
    /// they were; tables made before the failure stay registered.
    ///
    /// An empty memtable cannot be flushed: where the active memtable or a
    /// sealed one is empty, the call fails. Where there is no sealed memtable,
    /// the call succeeds if the active memtable can be flushed whatever the
    /// clock shows and whatever identifier is drawn for a new bucket.
    #[verifier::rlimit(30)]
    pub fn flush_all_memtables(&mut self) -> (r: Result<Vec<FlushedTable>, StorageEngineError>)
        requires
            old(self).wf(),
        ensures
            final(self).wf(),
            final(self).val_log == old(self).val_log,
            final(self).dir == old(self).dir,
            final(self).config == old(self).config,
            old(self).sealed().len() == 0 && old(self).always_flushes(None) ==> r is Ok,
            old(self).never_flushes(None) ==> r is Err && *final(self) == *old(self),
            old(self).active_memtable@ == empty_index() ==> (r matches Err(e)
                && e is BiggestKeyIndexError),
            (exists|i: int|
                0 <= i < old(self).sealed().len() && (#[trigger] old(self).sealed()[i]).1@
                    == empty_index()) ==> r is Err,
            r matches Err(e) ==> {
                &&& final(self).same_memtables(old(self))
                &&& final(self).keeps_registered(old(self))
                &&& e is BiggestKeyIndexError || e is FailedToInsertToBucket
                &&& e is BiggestKeyIndexError ==> old(self).active_memtable@ == empty_index()
                    || exists|i: int|
                    0 <= i < old(self).sealed().len() && (#[trigger] old(self).sealed()[i]).1@
                        == empty_index()
            },
            r matches Ok(out) ==> {
                let interval = effective_interval(old(self).config);
                &&& old(self).active_memtable@ != empty_index()
                &&& forall|i: int|
                    0 <= i < old(self).sealed().len() ==> (#[trigger] old(self).sealed()[i]).1@
                        != empty_index()
                &&& final(self).active_memtable@ == empty_index()
                &&& final(self).active_memtable.size == 0
                &&& final(self).sealed() == no_tables()
                &&& out@.len() == old(self).sealed().len() + 1
                &&& forall|i: int|
                    0 <= i < out@.len() ==> is_image_of(
                        (#[trigger] out@[i]).files,
                        old(self).memtable_at(
                            if i == 0 {
                                None
                            } else {
                                Some((i - 1) as usize)
                            },
                        )@,
                        interval,
                    )
                &&& forall|i: int|
                    0 <= i < out@.len() ==> final(self).biggest_key_index@.dom().contains(
                        (#[trigger] out@[i]).table.data_file_path@,
                    ) && !old(self).biggest_key_index@.dom().contains(
                        out@[i].table.data_file_path@,
                    )
                &&& forall|i: int, j: int|
                    0 <= i < j < out@.len() ==> (#[trigger] out@[i]).table.data_file_path@ != (
                    #[trigger] out@[j]).table.data_file_path@
                &&& final(self).bloom_filters@.len() == old(self).bloom_filters@.len()
                    + out@.len()
                &&& hotness_descending(final(self).bloom_filters@)
                &&& final(self).keeps_tables(old(self))
                &&& forall|i: int|
                    0 <= i < out@.len() ==> final(self).holds_table(
                        old(self).memtable_at(
                            if i == 0 {
                                None
                            } else {
                                Some((i - 1) as usize)
                            },
                        ),
                        #[trigger] out@[i],
                    )
            },
    {
        let hotness: u64 = 1;
        let mut out: Vec<FlushedTable> = Vec::new();
        let ghost interval = effective_interval(old(self).config);
        let ghost at_start = self.biggest_key_index@.dom();
        match self.flush_memtable(None, hotness) {
            Ok(flushed) => {
                proof {
                    let last = self.bloom_filters@.len() - 1;
                    assert(is_filter_of(
                        self.bloom_filters@[last],
                        old(self).memtable_at(None),
                        flushed.table,
                    ));
                    assert(self.holds_table(old(self).memtable_at(None), flushed));
                }
                out.push(flushed);
            },
            Err(e) => {
                proof {
                    assert(self.bloom_filters@.subrange(0, self.bloom_filters@.len() as int)
                        =~= self.bloom_filters@);
                }
                return Err(e);
            },
        }
        proof {
            let (c, f) = choose|c: u64, f: BucketID|
                old(self).is_table_stamp(c) && #[trigger] old(self).can_flush_at(None, c, f);
            assert(old(self).is_table_stamp(c) && old(self).can_flush_at(None, c, f));
            assert(!old(self).never_flushes(None));
        }
        let n = sealed_len(&self.read_only_memtables);
        let mut i: usize = 0;
        while i < n
            invariant
                i <= n,
                n == old(self).sealed().len(),
                self.wf(),
                self.same_memtables(old(self)),
                interval == effective_interval(old(self).config),
                at_start == old(self).biggest_key_index@.dom(),
                out@.len() == i + 1,
                forall|k: int|
                    0 <= k < out@.len() ==> is_image_of(
                        (#[trigger] out@[k]).files,
                        old(self).memtable_at(
                            if k == 0 {
                                None
                            } else {
                                Some((k - 1) as usize)
                            },
                        )@,
                        interval,
                    ),
                forall|k: int|
                    0 <= k < out@.len() ==> self.biggest_key_index@.dom().contains(
                        (#[trigger] out@[k]).table.data_file_path@,
                    ) && !at_start.contains(out@[k].table.data_file_path@),
                forall|a: int, b: int|
                    0 <= a < b < out@.len() ==> (#[trigger] out@[a]).table.data_file_path@ != (
                    #[trigger] out@[b]).table.data_file_path@,
                forall|p: Seq<char>| at_start.contains(p) ==> self.biggest_key_index@.dom().contains(p),
                self.bloom_filters@.len() == old(self).bloom_filters@.len() + out@.len(),
                self.keeps_registered(old(self)),
                forall|k: int|
                    0 <= k < out@.len() ==> self.holds_table(
                        old(self).memtable_at(
                            if k == 0 {
                                None
                            } else {
                                Some((k - 1) as usize)
                            },
                        ),
                        #[trigger] out@[k],
                    ),
                !old(self).never_flushes(None),
                old(self).active_memtable@ != empty_index(),
                forall|k: int|
                    0 <= k < i ==> (#[trigger] old(self).sealed()[k]).1@ != empty_index(),
            decreases n - i,
        {
            let ghost before = out@;
            let ghost known = self.biggest_key_index@.dom();
            let ghost engine_before = *self;
            match self.flush_memtable(Some(i), hotness) {
                Ok(flushed) => {
                    let ghost path = flushed.table.data_file_path@;
                    proof {
                        assert(!known.contains(path));
                        assert(old(self).memtable_at(Some(i)) == self.memtable_at(Some(i)));
                        assert(engine_before.memtable_at(Some(i)) == old(self).sealed()[i as int].1);
                        if old(self).sealed()[i as int].1@ == empty_index() {
                            let (c, f) = choose|c: u64, f: BucketID|
                                engine_before.is_table_stamp(c)
                                    && #[trigger] engine_before.can_flush_at(Some(i), c, f);
                            assert(false);
                        }
                        let n0 = old(self).bloom_filters@.len() as int;
                        let n1 = engine_before.bloom_filters@.len() as int;
                        assert(self.bloom_filters@.subrange(0, n0) =~= old(self).bloom_filters@) by {
                            assert forall|k: int| 0 <= k < n0 implies self.bloom_filters@[k] == old(
                                self,
                            ).bloom_filters@[k] by {
                                assert(self.bloom_filters@.subrange(0, n1)[k]
                                    == engine_before.bloom_filters@[k]);
                                assert(engine_before.bloom_filters@.subrange(0, n0)[k] == old(
                                    self,
                                ).bloom_filters@[k]);
                            }
                        }
                    }
                    proof {
                        let n1 = engine_before.bloom_filters@.len() as int;
                        lemma_buckets_kept_twice(
                            old(self).buckets.buckets@,
                            engine_before.buckets.buckets@,
                            self.buckets.buckets@,
                        );
                        assert(is_filter_of(
                            self.bloom_filters@[n1],
                            old(self).memtable_at(Some(i)),
                            flushed.table,
                        ));
                        assert(self.holds_table(old(self).memtable_at(Some(i)), flushed));
                        assert forall|k: int| 0 <= k < before.len() implies self.holds_table(
                            old(self).memtable_at(
                                if k == 0 {
                                    None
                                } else {
                                    Some((k - 1) as usize)
                                },
                            ),
                            #[trigger] before[k],
                        ) by {
                            let m = old(self).memtable_at(
                                if k == 0 {
                                    None
                                } else {
                                    Some((k - 1) as usize)
                                },
                            );
                            assert(engine_before.holds_table(m, before[k]));
                            let j = choose|j: int|
                                0 <= j < engine_before.bloom_filters@.len() && is_filter_of(
                                    #[trigger] engine_before.bloom_filters@[j],
                                    m,
                                    before[k].table,
                                );
                            assert(self.bloom_filters@.subrange(0, n1)[j]
                                == engine_before.bloom_filters@[j]);
                            assert(is_filter_of(self.bloom_filters@[j], m, before[k].table));
                        }
                    }
                    out.push(flushed);
                    proof {
                        assert forall|k: int| 0 <= k < out@.len() implies self.holds_table(
                            old(self).memtable_at(
                                if k == 0 {
                                    None
                                } else {
                                    Some((k - 1) as usize)
                                },
                            ),
                            #[trigger] out@[k],
                        ) by {
                            if k < before.len() {
                                assert(out@[k] == before[k]);
                            }
                        }
                        assert forall|k: int| 0 <= k < out@.len() implies is_image_of(
                            (#[trigger] out@[k]).files,
                            old(self).memtable_at(
                                if k == 0 {
                                    None
                                } else {
                                    Some((k - 1) as usize)
                                },
                            )@,
                            interval,
                        ) by {
                            if k < before.len() {
                                assert(out@[k] == before[k]);
                            }
                        }
                        assert forall|k: int| 0 <= k < out@.len() implies
                            self.biggest_key_index@.dom().contains(
                            (#[trigger] out@[k]).table.data_file_path@,
                        ) && !at_start.contains(out@[k].table.data_file_path@) by {
                            if k < before.len() {
                                assert(out@[k] == before[k]);
                                assert(known.contains(before[k].table.data_file_path@));
                            }
                        }
                        assert forall|a: int, b: int| 0 <= a < b < out@.len() implies (
                        #[trigger] out@[a]).table.data_file_path@ != (
                        #[trigger] out@[b]).table.data_file_path@ by {
                            assert(out@[a] == before[a]);
                            if b < before.len() {
                                assert(out@[b] == before[b]);
                            } else {
                                assert(known.contains(before[a].table.data_file_path@));
                            }
                        }
                    }
                },
                Err(e) => {
                    return Err(e);
                },
            }
            i += 1;
        }
        let ghost unsorted = self.bloom_filters@;
        sort_by_hotness(&mut self.bloom_filters);
        proof {
            lemma_same_filters(unsorted, self.bloom_filters@);
            lemma_same_filters(self.bloom_filters@, unsorted);
            let n0 = old(self).bloom_filters@.len() as int;
            assert forall|j: int| 0 <= j < n0 implies self.bloom_filters@.contains(
                #[trigger] old(self).bloom_filters@[j],
            ) by {
                assert(unsorted.subrange(0, n0)[j] == old(self).bloom_filters@[j]);
                assert(self.bloom_filters@.contains(unsorted[j]));
            }
            assert forall|k: int| 0 <= k < out@.len() implies self.holds_table(
                old(self).memtable_at(
                    if k == 0 {
                        None
                    } else {
                        Some((k - 1) as usize)
                    },
                ),
                #[trigger] out@[k],
            ) by {
                let m = old(self).memtable_at(
                    if k == 0 {
                        None
                    } else {
                        Some((k - 1) as usize)
                    },
                );
                let j = choose|j: int|
                    0 <= j < unsorted.len() && is_filter_of(#[trigger] unsorted[j], m, out@[k].table);
                assert(self.bloom_filters@.contains(unsorted[j]));
                let l = choose|l: int|
                    0 <= l < self.bloom_filters@.len() && self.bloom_filters@[l] == unsorted[j];
                assert(is_filter_of(self.bloom_filters@[l], m, out@[k].table));
            }
            assert forall|k: int| 0 <= k < self.bloom_filters@.len() implies (
            #[trigger] self.bloom_filters@[k]).wf() && self.bloom_filters@[k].sstable_path
                is Some by {
                let f = self.bloom_filters@[k];
                assert(unsorted.contains(f));
                let j = choose|j: int| 0 <= j < unsorted.len() && unsorted[j] == f;
                assert(unsorted[j].wf());
            }
        }
        self.active_memtable.clear();
        self.read_only_memtables = sealed_new();
        Ok(out)
    }

    /// Reads `key` as far as the memtables decide it, given the bytes of the
    /// value log: `None` where no memtable knows the key and the sorted tables
    /// are to be searched.
    pub fn get_from_memtables(&self, key: &Vec<u8>, vlog: &[u8]) -> (r: Option<
        Result<(Vec<u8>, u64), StorageEngineError>,
    >)
        requires
            self.wf(),
        ensures
            match self.reading_in(key@, vlog@) {
                Reading::NotInMemtables => r is None,
                Reading::Value { value, created_at } => r matches Some(Ok(pair)) && pair.0@
                    == value && pair.1 == created_at,
                Reading::TombstoneInMemtable => r matches Some(Err(e))
                    && e is KeyFoundAsTombstoneInMemtableError,
                Reading::TombstoneInValueLog => r matches Some(Err(e))
                    && e is KeyFoundAsTombstoneInValueLogError,
                Reading::MissingInValueLog => r matches Some(Err(e))
                    && e is KeyNotFoundInValueLogError,
            },
    {
        match self.lookup_memtables(key) {
            None => None,
            Some((offset, created_at, is_tombstone)) => {
                if is_tombstone {
                    Some(Err(StorageEngineError::KeyFoundAsTombstoneInMemtableError))
                } else {
                    Some(resolve_value(ValueLog::get(vlog, offset), created_at))
                }
            },
        }
    }

    /// What the memtables hold for `key`.
    pub fn lookup_memtables(&self, key: &Vec<u8>) -> (r: Option<IndexValue>)
        requires
            self.wf(),
        ensures
            r == self.memtable_entry(key@),
    {
        let in_active = match self.active_memtable.get(key) {
            Ok(f) => f,
            Err(_) => None,
        };
        match in_active {
            Some(v) => Some(v),
            None => self.lookup_sealed(key),
        }
    }
}

} // verus!
