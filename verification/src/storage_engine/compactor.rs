//! Compaction as the engine sees it: the sorted tables of one bucket are
//! merged into one table, the new table is registered, and the old ones are
//! struck from the bucket, the filters and the key index.

use crate::bloom_filter::{is_listed, BloomFilter};
use crate::cfg::Config;
use crate::clock::now_millis;
use crate::compaction::bucket::{
    data_file_name, first_fit, has_bucket, lemma_first_fit_in_range, placed_in,
    sstable_dir_name, Bucket, BucketID, BucketMap,
};
use crate::compaction::merge::{
    all_ascending, by_key, compact, is_ascending, lemma_standing_items,
    standing, standing_items, tables_of, Expiry,
};
use crate::consts::{is_reserved, is_reserved_key, tail_entry_key, tail_key, SENTINEL_KEY_LEN};
use crate::err::StorageEngineError;
use crate::key_range::range::KeyRange;
use crate::keys::key_le;
use crate::memtable::index::{lists_in_order, IndexValue};
use crate::memtable::inmemory::{Entry, InMemoryTable, ENTRY_OVERHEAD};
use crate::memtable::sealed::{sealed_get_index, sealed_len, sealed_tables};
use crate::names::random_uuid;
use crate::sparse_index::index_of;
use crate::sstable::sst::{
    data_of, item_encodable, items_from, items_of, sparse_marks,
    strictly_ascending, Item, SSTable, SstFiles,
};
use crate::sstable::table::Table;
use crate::storage_engine::recovery::{build_bloomfilter_from_sstable, key_envelope};
use crate::storage_engine::storage::{effective_interval, FlushedTable, StorageEngine};
use vstd::prelude::*;

verus! {

/// What a compaction asks of the caller.
#[derive(Debug)]
pub struct CompactionOutcome {
    /// The table that takes the place of the bucket's tables, with the bytes
    /// of its files; `None` where nothing is left of them.
    pub written: Option<FlushedTable>,
    /// The tables that were merged: their files can go.
    pub removed: Vec<Table>,
}

/// The entries of each data file.
pub open spec fn inputs_of(data_files: Seq<Vec<u8>>) -> Seq<Seq<Item>> {
    Seq::new(data_files.len(), |i: int| items_from(data_files[i]@, 0))
}

/// The expiry rules that `config` sets for a compaction at `now`.
pub open spec fn expiry_of(config: Config, now: u64) -> Expiry {
    Expiry {
        now,
        tombstone_gc_grace_millis: config.tombstone_gc_grace_millis,
        enable_ttl: config.enable_ttl,
        entry_ttl_millis: config.entry_ttl_millis,
    }
}

/// Whether `files` are the files of the table that a compaction of `inputs`
/// leaves: its keys ascend strictly and it holds, for every key of the
/// inputs, the entry that stands, unless that entry has expired.
pub open spec fn is_compaction_of(
    files: SstFiles,
    inputs: Seq<Seq<Item>>,
    expiry: Expiry,
    interval: int,
) -> bool {
    exists|items: Seq<Item>| #[trigger]
        strictly_ascending(items) && by_key(items) == standing(inputs, expiry) && files.data@
            == data_of(items) && files.index@ == index_of(sparse_marks(items, interval))
}

/// Those of `filters` that are tied to none of `tables`, in their order.
pub open spec fn filters_kept(filters: Seq<BloomFilter>, tables: Seq<Table>) -> Seq<BloomFilter>
    decreases filters.len(),
{
    if filters.len() == 0 {
        Seq::empty()
    } else if is_listed(filters.last().sstable_path, tables) {
        filters_kept(filters.drop_last(), tables)
    } else {
        filters_kept(filters.drop_last(), tables).push(filters.last())
    }
}

/// Those of `own` that are none of `tables`, going by their data files, in
/// their order.
pub open spec fn tables_kept(own: Seq<Table>, tables: Seq<Table>) -> Seq<Table>
    decreases own.len(),
{
    if own.len() == 0 {
        Seq::empty()
    } else if is_listed(Some(own.last()), tables) {
        tables_kept(own.drop_last(), tables)
    } else {
        tables_kept(own.drop_last(), tables).push(own.last())
    }
}

/// Whether `path` is the data file of one of `tables`.
pub open spec fn path_listed(path: Seq<char>, tables: Seq<Table>) -> bool {
    exists|i: int| 0 <= i < tables.len() && (#[trigger] tables[i]).data_file_path@ == path
}

/// Whether `table` is one of `tables`, going by its data file.
pub fn is_one_of(table: &Table, tables: &Vec<Table>) -> (r: bool)
    ensures
        r == is_listed(Some(*table), tables@),
{
    let mut i: usize = 0;
    while i < tables.len()
        invariant
            i <= tables@.len(),
            forall|j: int|
                0 <= j < i ==> (#[trigger] tables@[j]).data_file_path@ != table.data_file_path@,
        decreases tables.len() - i,
    {
        if tables[i].data_file_path == table.data_file_path {
            assert(tables@[i as int].data_file_path@ == table.data_file_path@);
            return true;
        }
        i += 1;
    }
    false
}

/// Strikes the filters that are tied to one of `tables`.
pub fn drop_filters(filters: &mut Vec<BloomFilter>, tables: &Vec<Table>)
    ensures
        final(filters)@ == filters_kept(old(filters)@, tables@),
{
    let mut kept: Vec<BloomFilter> = Vec::new();
    let mut source: Vec<BloomFilter> = Vec::new();
    std::mem::swap(filters, &mut source);
    let ghost all = source@;
    let mut reversed: Vec<BloomFilter> = Vec::new();
    while source.len() > 0
        invariant
            source@.len() + reversed@.len() == all.len(),
            forall|i: int| 0 <= i < source@.len() ==> source@[i] == all[i],
            forall|i: int|
                0 <= i < reversed@.len() ==> reversed@[i] == all[all.len() - 1 - i],
        decreases source@.len(),
    {
        let last = source.pop().unwrap();
        reversed.push(last);
    }
    let ghost mut done: int = 0;
    while reversed.len() > 0
        invariant
            0 <= done <= all.len(),
            reversed@.len() + done == all.len(),
            forall|i: int|
                0 <= i < reversed@.len() ==> reversed@[i] == all[all.len() - 1 - i],
            kept@ == filters_kept(all.subrange(0, done), tables@),
        decreases reversed@.len(),
    {
        let next = reversed.pop().unwrap();
        proof {
            assert(next == all[done]);
            let upto = all.subrange(0, done + 1);
            assert(upto.drop_last() =~= all.subrange(0, done));
            assert(upto.last() == all[done]);
        }
        if !next.is_tied_to_one_of(tables) {
            kept.push(next);
        }
        proof {
            done = done + 1;
        }
    }
    assert(all.subrange(0, done) =~= all);
    std::mem::swap(filters, &mut kept);
}

/// A copy of `tables`.
pub fn copy_tables(tables: &Vec<Table>) -> (r: Vec<Table>)
    ensures
        r@ == tables@,
{
    let mut out: Vec<Table> = Vec::new();
    let mut i: usize = 0;
    while i < tables.len()
        invariant
            i <= tables@.len(),
            out@ == tables@.subrange(0, i as int),
        decreases tables.len() - i,
    {
        out.push(tables[i].clone());
        assert(out@ =~= tables@.subrange(0, i + 1));
        i += 1;
    }
    assert(tables@.subrange(0, i as int) =~= tables@);
    out
}

/// Strikes from `own` the tables that are among `tables`.
pub fn drop_tables(own: &Vec<Table>, tables: &Vec<Table>) -> (r: Vec<Table>)
    ensures
        r@ == tables_kept(own@, tables@),
{
    let mut kept: Vec<Table> = Vec::new();
    let mut i: usize = 0;
    while i < own.len()
        invariant
            i <= own@.len(),
            kept@ == tables_kept(own@.subrange(0, i as int), tables@),
        decreases own.len() - i,
    {
        proof {
            let upto = own@.subrange(0, i + 1);
            assert(upto.drop_last() =~= own@.subrange(0, i as int));
            assert(upto.last() == own@[i as int]);
        }
        if !is_one_of(&own[i], tables) {
            kept.push(own[i].clone());
        }
        i += 1;
    }
    assert(own@.subrange(0, i as int) =~= own@);
    kept
}

/// Strikes the envelopes of `tables` from the key index.
pub fn drop_envelopes(key_index: &mut KeyRange, tables: &Vec<Table>)
    requires
        old(key_index).wf(),
    ensures
        final(key_index).wf(),
        forall|p: Seq<char>|
            final(key_index)@.dom().contains(p) <==> old(key_index)@.dom().contains(p)
                && !path_listed(p, tables@),
        forall|p: Seq<char>|
            final(key_index)@.dom().contains(p) ==> final(key_index)@[p] == old(key_index)@[p],
{
    let mut i: usize = 0;
    while i < tables.len()
        invariant
            i <= tables@.len(),
            key_index.wf(),
            forall|p: Seq<char>|
                key_index@.dom().contains(p) <==> old(key_index)@.dom().contains(p) && !path_listed(
                    p,
                    tables@.subrange(0, i as int),
                ),
            forall|p: Seq<char>|
                key_index@.dom().contains(p) ==> key_index@[p] == old(key_index)@[p],
        decreases tables.len() - i,
    {
        let ghost before = key_index@;
        let ghost path = tables@[i as int].data_file_path@;
        let _ = key_index.remove(tables[i].data_file_path.clone());
        proof {
            let upto = tables@.subrange(0, i as int);
            let next = tables@.subrange(0, i + 1);
            assert forall|p: Seq<char>|
                key_index@.dom().contains(p) <==> old(key_index)@.dom().contains(p)
                    && !path_listed(p, next) by {
                if path_listed(p, next) {
                    let j = choose|j: int|
                        0 <= j < next.len() && (#[trigger] next[j]).data_file_path@ == p;
                    if j < i {
                        assert(upto[j] == next[j]);
                        assert(path_listed(p, upto));
                    }
                }
                if path_listed(p, upto) {
                    let j = choose|j: int|
                        0 <= j < upto.len() && (#[trigger] upto[j]).data_file_path@ == p;
                    assert(next[j] == upto[j]);
                }
                if p == path {
                    assert(next[i as int].data_file_path@ == p);
                }
            }
        }
        i += 1;
    }
    assert(tables@.subrange(0, i as int) =~= tables@);
}

/// The entries of each data file, read into memory.
pub fn read_inputs(data_files: &Vec<Vec<u8>>) -> (r: Vec<Vec<Entry<Vec<u8>, usize>>>)
    ensures
        tables_of(r@) == inputs_of(data_files@),
{
    let mut out: Vec<Vec<Entry<Vec<u8>, usize>>> = Vec::new();
    let mut i: usize = 0;
    while i < data_files.len()
        invariant
            i <= data_files@.len(),
            out@.len() == i,
            forall|j: int| 0 <= j < i ==> items_of((#[trigger] out@[j])@) == items_from(
                data_files@[j]@,
                0,
            ),
        decreases data_files.len() - i,
    {
        let entries = SSTable::read_all(data_files[i].as_slice());
        out.push(entries);
        i += 1;
    }
    assert(tables_of(out@) =~= inputs_of(data_files@));
    out
}

/// Whether the keys of every one of `tables` ascend strictly.
pub fn all_tables_ascending(tables: &Vec<Vec<Entry<Vec<u8>, usize>>>) -> (r: bool)
    ensures
        r == all_ascending(tables_of(tables@)),
{
    let mut i: usize = 0;
    while i < tables.len()
        invariant
            i <= tables@.len(),
            forall|j: int| 0 <= j < i ==> strictly_ascending(#[trigger] tables_of(tables@)[j]),
        decreases tables.len() - i,
    {
        if !is_ascending(&tables[i]) {
            assert(!strictly_ascending(tables_of(tables@)[i as int]));
            return false;
        }
        i += 1;
    }
    true
}

/// Whether an entry of one of `tables`, but for the engine's own, points to
/// `offset` in the value log.
pub open spec fn is_referenced(tables: Seq<Seq<Item>>, offset: usize) -> bool {
    exists|t: int, n: int|
        0 <= t < tables.len() && 0 <= n < tables[t].len() && !is_reserved(
            (#[trigger] tables[t][n]).key,
        ) && tables[t][n].val_offset == offset
}

/// Whether `oldest` is the smallest offset that `tables` point to, or `None`
/// where they point to none.
pub open spec fn is_oldest_offset(tables: Seq<Seq<Item>>, oldest: Option<usize>) -> bool {
    match oldest {
        None => forall|offset: usize| !is_referenced(tables, offset),
        Some(m) => is_referenced(tables, m) && forall|offset: usize|
            is_referenced(tables, offset) ==> m <= offset,
    }
}

/// The smallest value-log offset that the entries of `tables` point to, but
/// for the engine's own entries.
#[verifier::rlimit(30)]
pub fn oldest_offset(tables: &Vec<Vec<Entry<Vec<u8>, usize>>>) -> (r: Option<usize>)
    ensures
        is_oldest_offset(tables_of(tables@), r),
{
    let ghost all = tables_of(tables@);
    let mut best: Option<usize> = None;
    let mut t: usize = 0;
    while t < tables.len()
        invariant
            t <= tables@.len(),
            all == tables_of(tables@),
            is_oldest_offset(all.subrange(0, t as int), best),
        decreases tables.len() - t,
    {
        let table = &tables[t];
        let ghost upto = all.subrange(0, t as int);
        let ghost next = all.subrange(0, t + 1);
        let ghost start = best;
        let mut n: usize = 0;
        while n < table.len()
            invariant
                n <= table@.len(),
                t < tables@.len(),
                all == tables_of(tables@),
                table@ == tables@[t as int]@,
                upto == all.subrange(0, t as int),
                next == all.subrange(0, t + 1),
                is_oldest_offset(upto, start),
                best is Some ==> is_referenced(next, best->0),
                best is None ==> start is None,
                start is Some ==> best is Some && best->0 <= start->0,
                forall|i: int|
                    0 <= i < n && !is_reserved((#[trigger] all[t as int][i]).key) ==> best is Some
                        && best->0 <= all[t as int][i].val_offset,
            decreases table.len() - n,
        {
            proof {
                assert(all[t as int][n as int].key == table@[n as int].key@);
                assert(next[t as int] == all[t as int]);
                if start is Some {
                    let s = start->0;
                    let (a, b) = choose|a: int, b: int|
                        0 <= a < upto.len() && 0 <= b < upto[a].len() && !is_reserved(
                            (#[trigger] upto[a][b]).key,
                        ) && upto[a][b].val_offset == s;
                    assert(next[a] == upto[a]);
                    assert(is_referenced(next, s));
                }
            }
            if !is_reserved_key(table[n].key.as_slice()) {
                let here = table[n].val_offset;
                proof {
                    assert(!is_reserved(next[t as int][n as int].key));
                    assert(next[t as int][n as int].val_offset == here);
                    assert(is_referenced(next, here));
                }
                best = match best {
                    Some(m) => if here < m {
                        Some(here)
                    } else {
                        Some(m)
                    },
                    None => Some(here),
                };
            }
            n += 1;
        }
        proof {
            match best {
                None => {
                    assert forall|offset: usize| !is_referenced(next, offset) by {
                        if is_referenced(next, offset) {
                            let (a, b) = choose|a: int, b: int|
                                0 <= a < next.len() && 0 <= b < next[a].len() && !is_reserved(
                                    (#[trigger] next[a][b]).key,
                                ) && next[a][b].val_offset == offset;
                            if a < t {
                                assert(upto[a] == next[a]);
                                assert(is_referenced(upto, offset));
                            } else {
                                assert(next[a] == all[t as int]);
                            }
                        }
                    }
                },
                Some(m) => {
                    assert forall|offset: usize| is_referenced(next, offset) implies m
                        <= offset by {
                        let (a, b) = choose|a: int, b: int|
                            0 <= a < next.len() && 0 <= b < next[a].len() && !is_reserved(
                                (#[trigger] next[a][b]).key,
                            ) && next[a][b].val_offset == offset;
                        if a < t {
                            assert(upto[a] == next[a]);
                            assert(is_referenced(upto, offset));
                        } else {
                            assert(next[a] == all[t as int]);
                        }
                    }
                },
            }
        }
        t += 1;
    }
    assert(all.subrange(0, t as int) =~= all);
    best
}

/// Whether an entry of `m`, but for the engine's own, points to `offset` in
/// the value log.
pub open spec fn map_points_to(m: Map<Seq<u8>, IndexValue>, offset: usize) -> bool {
    exists|k: Seq<u8>| #[trigger] m.dom().contains(k) && !is_reserved(k) && m[k].0 == offset
}

/// Whether a live entry points to `offset` in the value log: an entry of a
/// memtable or of one of the data files, but for the engine's own.
pub open spec fn is_live_offset(
    active: Map<Seq<u8>, IndexValue>,
    sealed: Seq<(Seq<u8>, InMemoryTable)>,
    data_files: Seq<Vec<u8>>,
    offset: usize,
) -> bool {
    ||| is_referenced(inputs_of(data_files), offset)
    ||| map_points_to(active, offset)
    ||| exists|i: int| 0 <= i < sealed.len() && map_points_to((#[trigger] sealed[i]).1@, offset)
}

/// A listing of a memtable points to the offsets that the memtable points to.
pub proof fn lemma_listing_points(
    entries: Seq<Entry<Vec<u8>, usize>>,
    m: Map<Seq<u8>, IndexValue>,
    offset: usize,
)
    requires
        lists_in_order(entries, m),
    ensures
        map_points_to(m, offset) <==> exists|n: int|
            0 <= n < entries.len() && !is_reserved((#[trigger] items_of(entries)[n]).key)
                && items_of(entries)[n].val_offset == offset,
{
    let items = items_of(entries);
    if map_points_to(m, offset) {
        let k = choose|k: Seq<u8>| #[trigger]
            m.dom().contains(k) && !is_reserved(k) && m[k].0 == offset;
        let n = choose|n: int| 0 <= n < entries.len() && entries[n].key@ == k;
        assert(m.dom().contains(entries[n].key@));
        assert(items[n].key == k && items[n].val_offset == offset);
    }
    if exists|n: int|
        0 <= n < entries.len() && !is_reserved((#[trigger] items[n]).key) && items[n].val_offset
            == offset {
        let n = choose|n: int|
            0 <= n < entries.len() && !is_reserved((#[trigger] items[n]).key) && items[n].val_offset
                == offset;
        assert(m.dom().contains(entries[n].key@));
        assert(m[entries[n].key@].0 == offset);
    }
}

/// Whether `filter` is tied to `table` and reports every one of `keys` as
/// possibly present.
pub open spec fn is_filter_over(filter: BloomFilter, table: Table, keys: Set<Seq<u8>>) -> bool {
    &&& filter.sstable_path == Some(table)
    &&& forall|k: Seq<u8>| keys.contains(k) ==> filter.may_contain(k)
}

/// Whether a table that holds `items`, made at `created_at`, can be
/// registered: every key fits the length field of the file format, the table
/// finds a bucket (one whose window holds the table's size, or a new one that
/// goes by `fresh_id`, which must be free), and its data file is neither
/// registered yet nor the data file of one of `taken`.
pub open spec fn can_place(
    buckets: BucketMap,
    key_index: KeyRange,
    config: Config,
    items: Seq<Item>,
    taken: Seq<Table>,
    created_at: u64,
    fresh_id: BucketID,
) -> bool {
    let size = data_of(items).len() as u64;
    let low = config.size_tier_low_percent;
    let high = config.size_tier_high_percent;
    let path = data_file_name(
        sstable_dir_name(buckets.target_dir(size, fresh_id, low, high), created_at),
        created_at,
    );
    &&& forall|i: int| 0 <= i < items.len() ==> item_encodable(#[trigger] items[i])
    &&& first_fit(buckets.buckets@, size, low, high) < buckets.buckets@.len() || !has_bucket(
        buckets.buckets@,
        fresh_id,
    )
    &&& !key_index@.dom().contains(path)
    &&& !path_listed(path, taken)
}

impl StorageEngine {
    /// Registers a table that holds `entries`, made at `created_at`: encodes
    /// the entries, places the table in a bucket, builds a filter over its
    /// keys and registers the envelope of its keys. A failure changes nothing.
    #[verifier::rlimit(30)]
    pub fn place_entries(
        buckets: &mut BucketMap,
        bloom_filters: &mut Vec<BloomFilter>,
        key_index: &mut KeyRange,
        config: &Config,
        entries: &Vec<Entry<Vec<u8>, usize>>,
        taken: &Vec<Table>,
        hotness: u64,
        created_at: u64,
        fresh_id: BucketID,
    ) -> (r: Result<FlushedTable, StorageEngineError>)
        requires
            old(buckets).wf(),
            old(key_index).wf(),
            entries@.len() > 0,
        ensures
            r is Ok <==> can_place(
                *old(buckets),
                *old(key_index),
                *config,
                items_of(entries@),
                taken@,
                created_at,
                fresh_id,
            ),
            r matches Err(e) ==> {
                &&& *final(buckets) == *old(buckets)
                &&& *final(bloom_filters) == *old(bloom_filters)
                &&& *final(key_index) == *old(key_index)
                &&& e is CompactionFailed
            },
            r matches Ok(placed) ==> {
                let table = placed.table;
                let path = table.data_file_path@;
                let interval = effective_interval(*config);
                &&& final(buckets).wf()
                &&& final(key_index).wf()
                &&& final(buckets).dir == old(buckets).dir
                &&& final(buckets).buckets@.len() >= old(buckets).buckets@.len()
                &&& forall|i: int|
                    0 <= i < old(buckets).buckets@.len() ==> (
                    #[trigger] final(buckets).buckets@[i]).id == old(buckets).buckets@[i].id && (
                    final(buckets).buckets@[i].sstables@ == old(buckets).buckets@[i].sstables@
                        || final(buckets).buckets@[i].sstables@ == old(
                        buckets,
                    ).buckets@[i].sstables@.push(table))
                &&& placed_in(
                    old(buckets).buckets@,
                    final(buckets).buckets@,
                    table,
                    first_fit(
                        old(buckets).buckets@,
                        table.size,
                        config.size_tier_low_percent,
                        config.size_tier_high_percent,
                    ),
                )
                &&& placed.files.data@ == data_of(items_of(entries@))
                &&& placed.files.index@ == index_of(sparse_marks(items_of(entries@), interval))
                &&& table.size == placed.files.data@.len()
                &&& table.hotness == hotness
                &&& final(bloom_filters)@ == old(bloom_filters)@.push(final(bloom_filters)@.last())
                &&& final(bloom_filters)@.last().wf()
                &&& final(bloom_filters)@.last().sstable_path == Some(table)
                &&& forall|i: int|
                    0 <= i < entries@.len() ==> final(bloom_filters)@.last().may_contain(
                        (#[trigger] entries@[i]).key@,
                    )
                &&& !old(key_index)@.dom().contains(path)
                &&& !path_listed(path, taken@)
                &&& final(key_index)@.dom() == old(key_index)@.dom().insert(path)
                &&& forall|p: Seq<char>|
                    old(key_index)@.dom().contains(p) ==> final(key_index)@[p] == old(key_index)@[p]
                &&& final(key_index)@[path].sst == table
                &&& forall|i: int|
                    0 <= i < entries@.len() ==> key_le(
                        final(key_index)@[path].smallest_key@,
                        (#[trigger] entries@[i]).key@,
                    ) && key_le(entries@[i].key@, final(key_index)@[path].biggest_key@)
            },
    {
        let interval = if config.sparse_interval == 0 {
            1
        } else {
            config.sparse_interval
        };
        let files = match SSTable::encode(entries, interval) {
            Some(files) => files,
            None => {
                return Err(StorageEngineError::CompactionFailed(String::new()));
            },
        };
        let (smallest, biggest) = match key_envelope(entries) {
            Some(pair) => pair,
            None => {
                return Err(StorageEngineError::CompactionFailed(String::new()));
            },
        };
        let size = files.data.len() as u64;
        let planned = buckets.plan_table(
            size,
            hotness,
            created_at,
            fresh_id,
            config.size_tier_low_percent,
            config.size_tier_high_percent,
        );
        if key_index.contains_path(&planned.data_file_path) || is_one_of(&planned, taken) {
            return Err(StorageEngineError::CompactionFailed(String::new()));
        }
        let table = match buckets.place_table(
            size,
            hotness,
            created_at,
            fresh_id,
            config.size_tier_low_percent,
            config.size_tier_high_percent,
        ) {
            Ok(table) => table,
            Err(_) => {
                return Err(StorageEngineError::CompactionFailed(String::new()));
            },
        };
        proof {
            let before = old(buckets).buckets@;
            let after = buckets.buckets@;
            let at = first_fit(
                before,
                size,
                config.size_tier_low_percent,
                config.size_tier_high_percent,
            );
            lemma_first_fit_in_range(
                before,
                size,
                config.size_tier_low_percent,
                config.size_tier_high_percent,
            );
            assert(placed_in(before, after, table, at));
            assert forall|i: int| 0 <= i < before.len() implies (#[trigger] after[i]).id
                == before[i].id && (after[i].sstables@ == before[i].sstables@
                || after[i].sstables@ == before[i].sstables@.push(table)) by {
                if i != at {
                    assert(after[i] == before[i]);
                }
            }
        }
        let mut filter = build_bloomfilter_from_sstable(entries, config.false_positive_rate);
        filter.set_sstable_path(table.clone());
        let ghost filters_before = bloom_filters@;
        bloom_filters.push(filter);
        let had = key_index.set(table.get_data_file_path(), smallest, biggest, table.clone());
        proof {
            assert(!had);
            assert(key_index@.dom() =~= old(key_index)@.dom().insert(table.data_file_path@));
        }
        Ok(FlushedTable { table, files })
    }

    /// The places of the buckets that are due for compaction: those that hold
    /// at least as many tables as the configuration asks for, and at least
    /// one.
    pub fn buckets_to_compact(&self) -> (r: Vec<usize>)
        ensures
            forall|i: int| 0 <= i < r@.len() ==> (#[trigger] r@[i]) < self.buckets.buckets@.len()
                && self.is_due(r@[i] as int),
            forall|b: int|
                0 <= b < self.buckets.buckets@.len() && self.is_due(b) ==> exists|i: int|
                    0 <= i < r@.len() && #[trigger] r@[i] == b,
            forall|i: int, j: int| 0 <= i < j < r@.len() ==> r@[i] < r@[j],
    {
        let mut out: Vec<usize> = Vec::new();
        let mut b: usize = 0;
        while b < self.buckets.buckets.len()
            invariant
                b <= self.buckets.buckets@.len(),
                forall|i: int| 0 <= i < out@.len() ==> (#[trigger] out@[i]) < b && self.is_due(
                    out@[i] as int,
                ),
                forall|c: int|
                    0 <= c < b && self.is_due(c) ==> exists|i: int|
                        0 <= i < out@.len() && #[trigger] out@[i] == c,
                forall|i: int, j: int| 0 <= i < j < out@.len() ==> out@[i] < out@[j],
            decreases self.buckets.buckets.len() - b,
        {
            let held = self.buckets.buckets[b].sstables.len();
            if held > 0 && held >= self.config.min_tier_sstables {
                let ghost before = out@;
                out.push(b);
                proof {
                    assert forall|c: int| 0 <= c < b + 1 && self.is_due(c) implies exists|i: int|
                        0 <= i < out@.len() && #[trigger] out@[i] == c by {
                        if c < b {
                            let i = choose|i: int| 0 <= i < before.len() && #[trigger] before[i] == c;
                            assert(out@[i] == c);
                        } else {
                            assert(out@[before.len() as int] == c);
                        }
                    }
                }
            }
            b += 1;
        }
        out
    }

    /// Begins a pass over the buckets that are due for compaction.
    pub fn plan_compaction_pass(&self) -> (r: CompactionPass)
        ensures
            !r.compacted,
            !r.reclaimed,
            forall|i: int|
                0 <= i < r.due@.len() ==> (#[trigger] r.due@[i]) < self.buckets.buckets@.len()
                    && self.is_due(r.due@[i] as int),
            forall|b: int|
                0 <= b < self.buckets.buckets@.len() && self.is_due(b) ==> exists|i: int|
                    0 <= i < r.due@.len() && #[trigger] r.due@[i] == b,
            forall|i: int, j: int| 0 <= i < j < r.due@.len() ==> r.due@[i] < r.due@[j],
    {
        let due = self.buckets_to_compact();
        let pass = CompactionPass { due, compacted: false, reclaimed: false };
        proof {
            assert forall|b: int|
                0 <= b < self.buckets.buckets@.len() && self.is_due(b) implies exists|i: int|
                0 <= i < pass.due@.len() && #[trigger] pass.due@[i] == b by {
                let i = choose|i: int| 0 <= i < due@.len() && #[trigger] due@[i] == b;
                assert(pass.due@[i] == b);
            }
        }
        pass
    }

    /// Whether the bucket at place `b` is due for compaction.
    pub open spec fn is_due(&self, b: int) -> bool {
        self.buckets.buckets@[b].sstables@.len() > 0 && self.buckets.buckets@[b].sstables@.len()
            >= self.config.min_tier_sstables
    }

    /// Whether the bucket at `position` can be compacted at the time `now`,
    /// given the bytes of the data files of its tables, a new bucket going by
    /// `fresh_id`: the bucket is there, there is one data file for each of its
    /// tables, the keys of every one ascend strictly, and, where anything is
    /// left standing, the table that holds it can be registered.
    pub open spec fn can_compact_at(
        &self,
        position: usize,
        data_files: Seq<Vec<u8>>,
        now: u64,
        fresh_id: BucketID,
    ) -> bool {
        let inputs = inputs_of(data_files);
        let expiry = expiry_of(self.config, now);
        &&& position < self.buckets.buckets@.len()
        &&& data_files.len() == self.buckets.buckets@[position as int].sstables@.len()
        &&& all_ascending(inputs)
        &&& standing(inputs, expiry).dom() == Set::<Seq<u8>>::empty() || can_place(
            self.buckets,
            self.biggest_key_index,
            self.config,
            standing_items(inputs, expiry),
            self.buckets.buckets@[position as int].sstables@,
            now,
            fresh_id,
        )
    }

    /// Whether the bucket at `position` can be compacted at whatever time the
    /// next table is made and whatever identifier is drawn for a new bucket.
    pub open spec fn always_compacts(&self, position: usize, data_files: Seq<Vec<u8>>) -> bool {
        forall|now: u64, fresh_id: BucketID|
            self.is_table_stamp(now) ==> #[trigger] self.can_compact_at(
                position,
                data_files,
                now,
                fresh_id,
            )
    }

    /// Whether the bucket at `position` cannot be compacted at whatever time
    /// the next table is made and whatever identifier is drawn for a new
    /// bucket.
    pub open spec fn never_compacts(&self, position: usize, data_files: Seq<Vec<u8>>) -> bool {
        forall|now: u64, fresh_id: BucketID|
            self.is_table_stamp(now) ==> !#[trigger] self.can_compact_at(
                position,
                data_files,
                now,
                fresh_id,
            )
    }

    /// Whether this engine is `before` after the bucket at `position` was
    /// compacted at the time `now` with the outcome `out`: the tables of the
    /// bucket are handed back for removal; the table that takes their place
    /// holds what stands of them, and is registered with an envelope that
    /// encloses its keys; the old tables have left the bucket, the filters and
    /// the key index; and every other envelope is as it was.
    pub open spec fn compacted_at(
        &self,
        before: &StorageEngine,
        position: usize,
        data_files: Seq<Vec<u8>>,
        now: u64,
        out: CompactionOutcome,
    ) -> bool {
        let inputs = inputs_of(data_files);
        let expiry = expiry_of(before.config, now);
        let gone = before.buckets.buckets@[position as int].sstables@;
        &&& position < before.buckets.buckets@.len()
        &&& data_files.len() == gone.len()
        &&& all_ascending(inputs)
        &&& out.removed@ == gone
        &&& out.written is None <==> standing(inputs, expiry).dom() == Set::<
            Seq<u8>,
        >::empty()
        &&& out.written matches Some(placed) ==> {
            let path = placed.table.data_file_path@;
            &&& is_compaction_of(
                placed.files,
                inputs,
                expiry,
                effective_interval(before.config),
            )
            &&& !before.biggest_key_index@.dom().contains(path)
            &&& !path_listed(path, gone)
            &&& self.biggest_key_index@.dom().contains(path)
            &&& self.biggest_key_index@[path].sst == placed.table
            &&& exists|j: int|
                0 <= j < self.bloom_filters@.len() && is_filter_over(
                    #[trigger] self.bloom_filters@[j],
                    placed.table,
                    standing(inputs, expiry).dom(),
                )
            &&& forall|k: Seq<u8>|
                standing(inputs, expiry).dom().contains(k) ==> key_le(
                    self.biggest_key_index@[path].smallest_key@,
                    k,
                ) && key_le(k, self.biggest_key_index@[path].biggest_key@)
        }
        &&& forall|p: Seq<char>|
            path_listed(p, gone) ==> !self.biggest_key_index@.dom().contains(p)
        &&& forall|p: Seq<char>|
            before.biggest_key_index@.dom().contains(p) && !path_listed(p, gone)
                ==> self.biggest_key_index@.dom().contains(p)
                && self.biggest_key_index@[p] == before.biggest_key_index@[p]
        &&& self.buckets.buckets@.len() >= before.buckets.buckets@.len()
        &&& forall|b: int|
            0 <= b < before.buckets.buckets@.len() ==> (#[trigger] self.buckets.buckets@[b]).id
                == before.buckets.buckets@[b].id
        &&& out.written matches Some(placed) ==> {
            let at = first_fit(
                before.buckets.buckets@,
                placed.table.size,
                before.config.size_tier_low_percent,
                before.config.size_tier_high_percent,
            );
            &&& 0 <= at < self.buckets.buckets@.len()
            &&& self.buckets.buckets@[at].sstables@.len() > 0
            &&& self.buckets.buckets@[at].sstables@.last() == placed.table
            &&& forall|b: int|
                0 <= b < before.buckets.buckets@.len() && b != at && b != position
                    ==> #[trigger] self.buckets.buckets@[b] == before.buckets.buckets@[b]
        }
        &&& out.written is None ==> {
            &&& self.buckets.buckets@.len() == before.buckets.buckets@.len()
            &&& forall|b: int|
                0 <= b < before.buckets.buckets@.len() && b != position
                    ==> #[trigger] self.buckets.buckets@[b] == before.buckets.buckets@[b]
        }
        &&& forall|i: int|
            0 <= i < self.buckets.buckets@[position as int].sstables@.len()
                ==> !is_listed(
                Some(#[trigger] self.buckets.buckets@[position as int].sstables@[i]),
                gone,
            )
        &&& forall|i: int|
            0 <= i < self.bloom_filters@.len() ==> !is_listed(
                (#[trigger] self.bloom_filters@[i]).sstable_path,
                gone,
            )
    }

    /// Compacts the bucket at `position` at the time `now`, given the bytes of
    /// the data files of its tables, in the bucket's order: merges the tables
    /// into one that keeps, for every key, only the entry that stands, and
    /// drops what has expired; registers the new table; and strikes the old
    /// tables from the bucket, the filters and the key index.
    ///
    /// A failure changes nothing.
    #[verifier::rlimit(30)]
    pub fn compact_bucket_at(
        &mut self,
        position: usize,
        data_files: &Vec<Vec<u8>>,
        now: u64,
        fresh_id: BucketID,
    ) -> (r: Result<CompactionOutcome, StorageEngineError>)
        requires
            old(self).wf(),
        ensures
            final(self).wf(),
            final(self).same_memtables(old(self)),
            r matches Err(e) ==> *final(self) == *old(self) && e is CompactionFailed,
            r matches Ok(out) ==> final(self).compacted_at(
                old(self),
                position,
                data_files@,
                now,
                out,
            ),
            r is Ok <==> old(self).can_compact_at(position, data_files@, now, fresh_id),
    {
        if position >= self.buckets.buckets.len() {
            return Err(StorageEngineError::CompactionFailed(String::new()));
        }
        if data_files.len() != self.buckets.buckets[position].sstables.len() {
            return Err(StorageEngineError::CompactionFailed(String::new()));
        }
        let tables = read_inputs(data_files);
        if !all_tables_ascending(&tables) {
            return Err(StorageEngineError::CompactionFailed(String::new()));
        }
        let expiry = Expiry {
            now,
            tombstone_gc_grace_millis: self.config.tombstone_gc_grace_millis,
            enable_ttl: self.config.enable_ttl,
            entry_ttl_millis: self.config.entry_ttl_millis,
        };
        let merged = compact(&tables, &expiry);
        let ghost items = items_of(merged@);
        let ghost inputs = inputs_of(data_files@);
        let removed = copy_tables(&self.buckets.buckets[position].sstables);
        proof {
            lemma_standing_items(items, inputs, expiry);
            if merged@.len() == 0 {
                assert(standing(inputs, expiry).dom() =~= Set::<Seq<u8>>::empty()) by {
                    assert forall|k: Seq<u8>| !standing(inputs, expiry).dom().contains(k) by {
                        assert(!by_key(items).dom().contains(k));
                    }
                }
            } else {
                assert(by_key(items).dom().contains(items[0].key));
            }
        }
        let mut written: Option<FlushedTable> = None;
        if merged.len() > 0 {
            let placed = match Self::place_entries(
                &mut self.buckets,
                &mut self.bloom_filters,
                &mut self.biggest_key_index,
                &self.config,
                &merged,
                &removed,
                0,
                now,
                fresh_id,
            ) {
                Ok(placed) => placed,
                Err(e) => {
                    return Err(e);
                },
            };
            proof {
                let path = placed.table.data_file_path@;
                assert forall|k: Seq<u8>| standing(inputs, expiry).dom().contains(k) implies key_le(
                    self.biggest_key_index@[path].smallest_key@,
                    k,
                ) && key_le(k, self.biggest_key_index@[path].biggest_key@) by {
                    assert(by_key(items).dom().contains(k));
                    let i = choose|i: int| 0 <= i < items.len() && (#[trigger] items[i]).key == k;
                    assert(items[i].key == merged@[i].key@);
                }
            }
            written = Some(placed);
        }
        let ghost placed_buckets = self.buckets.buckets@;
        let ghost placed_filters = self.bloom_filters@;
        let kept = drop_tables(&self.buckets.buckets[position].sstables, &removed);
        let average = Bucket::compute_average(&kept);
        let slimmer = Bucket {
            id: self.buckets.buckets[position].id,
            dir: self.buckets.buckets[position].dir.clone(),
            avarage_size: average,
            sstables: kept,
        };
        self.buckets.buckets.set(position, slimmer);
        proof {
            lemma_tables_kept(placed_buckets[position as int].sstables@, removed@);
            if written is Some {
                let table = written->0.table;
                let at = first_fit(
                    old(self).buckets.buckets@,
                    table.size,
                    self.config.size_tier_low_percent,
                    self.config.size_tier_high_percent,
                );
                assert(placed_in(old(self).buckets.buckets@, placed_buckets, table, at));
                assert(placed_buckets[at].sstables@.len() > 0 && placed_buckets[at].sstables@.last()
                    == table);
                if at == position {
                    let grown = placed_buckets[at].sstables@;
                    assert(grown.drop_last() =~= removed@);
                    assert(!is_listed(Some(grown.last()), removed@));
                    assert(tables_kept(grown, removed@).last() == table);
                }
            }
            let after = self.buckets.buckets@;
            assert forall|a: int, b: int|
                0 <= a < after.len() && 0 <= b < after.len() && (#[trigger] after[a]).id == (
                #[trigger] after[b]).id implies a == b by {
                assert(after[a].id == placed_buckets[a].id);
                assert(after[b].id == placed_buckets[b].id);
            }
        }
        drop_filters(&mut self.bloom_filters, &removed);
        proof {
            if written is Some {
                let table = written->0.table;
                let last = placed_filters.len() - 1;
                assert(placed_filters[last] == placed_filters.last());
                assert(is_filter_over(placed_filters[last], table, standing(inputs, expiry).dom()))
                    by {
                    assert forall|k: Seq<u8>|
                        standing(inputs, expiry).dom().contains(k) implies placed_filters[last].may_contain(
                        k,
                    ) by {
                        assert(by_key(items).dom().contains(k));
                        let i = choose|i: int| 0 <= i < items.len() && (#[trigger] items[i]).key == k;
                        assert(merged@[i].key@ == k);
                    }
                }
                lemma_filter_stays(placed_filters, removed@, last);
                let kept_filters = self.bloom_filters@;
                let j = choose|j: int|
                    0 <= j < kept_filters.len() && kept_filters[j] == placed_filters[last];
                assert(is_filter_over(kept_filters[j], table, standing(inputs, expiry).dom()));
            }
            lemma_filters_kept(placed_filters, removed@);
            assert forall|i: int| 0 <= i < self.bloom_filters@.len() implies (
            #[trigger] self.bloom_filters@[i]).wf() && self.bloom_filters@[i].sstable_path
                is Some by {
                let f = self.bloom_filters@[i];
                assert(placed_filters.contains(f));
                let j = choose|j: int| 0 <= j < placed_filters.len() && placed_filters[j] == f;
                if j < old(self).bloom_filters@.len() {
                    assert(placed_filters[j] == old(self).bloom_filters@[j]);
                }
            }
        }
        drop_envelopes(&mut self.biggest_key_index, &removed);
        if now > self.last_table_stamp {
            self.last_table_stamp = now;
        }
        proof {
            assert(self.read_only_memtables == old(self).read_only_memtables);
            assert forall|i: int| 0 <= i < self.sealed().len() implies (
            #[trigger] self.sealed()[i]).1.wf() by {
                assert(old(self).sealed()[i].1.wf());
            }
        }
        Ok(CompactionOutcome { written, removed })
    }

    /// Moves the tail of the value log up, at the time `now`, to the oldest
    /// record that a live entry still points to, given the bytes of the data
    /// files of all live sorted tables. The `TAIL` sentinel of the active
    /// memtable takes the new tail along. The tail never moves down, and it
    /// stays where it is where no live entry points behind it.
    ///
    /// Fails, changing nothing, only where the byte count of the active
    /// memtable would leave the range of `usize`.
    #[verifier::rlimit(30)]
    pub fn reclaim_at(&mut self, data_files: &Vec<Vec<u8>>, now: u64) -> (r: Result<
        usize,
        StorageEngineError,
    >)
        requires
            old(self).wf(),
        ensures
            final(self).wf(),
            r is Ok <==> old(self).active_memtable.size + SENTINEL_KEY_LEN + ENTRY_OVERHEAD
                <= usize::MAX,
            r matches Err(e) ==> *final(self) == *old(self) && e is InsertToMemTableFailedError,
            r matches Ok(tail) ==> {
                &&& final(self).val_log.tail_offset == tail
                &&& tail >= old(self).val_log.tail_offset
                &&& forall|offset: usize|
                    is_live_offset(
                        old(self).active_memtable@,
                        old(self).sealed(),
                        data_files@,
                        offset,
                    ) && offset >= old(self).val_log.tail_offset ==> tail <= offset
                &&& tail == old(self).val_log.tail_offset || is_live_offset(
                    old(self).active_memtable@,
                    old(self).sealed(),
                    data_files@,
                    tail,
                )
                &&& final(self).active_memtable@ == old(self).active_memtable@.insert(
                    tail_entry_key(),
                    (tail, now, false),
                )
                &&& final(self).read_only_memtables == old(self).read_only_memtables
                &&& final(self).val_log.log == old(self).val_log.log
                &&& final(self).val_log.head_offset == old(self).val_log.head_offset
                &&& final(self).val_log.size == old(self).val_log.size
                &&& final(self).dir == old(self).dir
                &&& final(self).config == old(self).config
                &&& final(self).bloom_filters == old(self).bloom_filters
                &&& final(self).buckets == old(self).buckets
                &&& final(self).biggest_key_index == old(self).biggest_key_index
            },
    {
        if self.active_memtable.size.checked_add(SENTINEL_KEY_LEN + ENTRY_OVERHEAD).is_none() {
            return Err(
                StorageEngineError::InsertToMemTableFailedError {
                    key: String::new(),
                    value_offset: self.val_log.tail_offset,
                },
            );
        }
        let mut tables = read_inputs(data_files);
        let ghost files = inputs_of(data_files@);
        let ghost sealed = self.sealed();
        let in_files = tables.len();
        let active_entries = self.active_memtable.entries();
        let ghost active_listing = active_entries@;
        tables.push(active_entries);
        let n = sealed_len(&self.read_only_memtables);
        let ghost mut listings: Seq<Seq<Entry<Vec<u8>, usize>>> = Seq::empty();
        let mut i: usize = 0;
        while i < n
            invariant
                i <= n,
                n == sealed.len(),
                sealed == sealed_tables(self.read_only_memtables),
                in_files == files.len(),
                tables@.len() == in_files + 1 + i,
                listings.len() == i,
                forall|j: int| 0 <= j < in_files ==> (#[trigger] tables_of(tables@)[j]) == files[j],
                tables_of(tables@)[in_files as int] == items_of(active_listing),
                forall|j: int|
                    0 <= j < i ==> (#[trigger] tables_of(tables@)[in_files + 1 + j]) == items_of(
                        listings[j],
                    ),
                forall|j: int| 0 <= j < i ==> lists_in_order(#[trigger] listings[j], sealed[j].1@),
            decreases n - i,
        {
            let (_, table) = sealed_get_index(&self.read_only_memtables, i);
            let entries = table.entries();
            let ghost before = tables@;
            let ghost listed = listings;
            proof {
                listings = listings.push(entries@);
            }
            tables.push(entries);
            proof {
                assert forall|j: int| 0 <= j < before.len() implies (#[trigger] tables_of(
                    tables@,
                )[j]) == tables_of(before)[j] by {
                    assert(tables@[j] == before[j]);
                }
                assert forall|j: int| 0 <= j < i + 1 implies lists_in_order(
                    #[trigger] listings[j],
                    sealed[j].1@,
                ) by {
                    if j < i {
                        assert(listings[j] == listed[j]);
                    }
                }
                assert forall|j: int| 0 <= j < i + 1 implies (#[trigger] tables_of(
                    tables@,
                )[in_files + 1 + j]) == items_of(listings[j]) by {
                    if j < i {
                        assert(listings[j] == listed[j]);
                        assert(tables_of(before)[in_files + 1 + j] == items_of(listed[j]));
                    }
                }
            }
            i += 1;
        }
        let oldest = oldest_offset(&tables);
        let tail = match oldest {
            Some(m) => if m > self.val_log.tail_offset {
                m
            } else {
                self.val_log.tail_offset
            },
            None => self.val_log.tail_offset,
        };
        proof {
            let all = tables_of(tables@);
            assert forall|offset: usize|
                is_live_offset(
                    old(self).active_memtable@,
                    sealed,
                    data_files@,
                    offset,
                ) implies is_referenced(all, offset) by {
                if is_referenced(files, offset) {
                    let (t, k) = choose|t: int, k: int|
                        0 <= t < files.len() && 0 <= k < files[t].len() && !is_reserved(
                            (#[trigger] files[t][k]).key,
                        ) && files[t][k].val_offset == offset;
                    assert(all[t] == files[t]);
                } else if map_points_to(self.active_memtable@, offset) {
                    lemma_listing_points(active_listing, self.active_memtable@, offset);
                    let k = choose|k: int|
                        0 <= k < active_listing.len() && !is_reserved(
                            (#[trigger] items_of(active_listing)[k]).key,
                        ) && items_of(active_listing)[k].val_offset == offset;
                    assert(all[in_files as int][k] == items_of(active_listing)[k]);
                } else {
                    let j = choose|j: int|
                        0 <= j < sealed.len() && map_points_to((#[trigger] sealed[j]).1@, offset);
                    lemma_listing_points(listings[j], sealed[j].1@, offset);
                    let k = choose|k: int|
                        0 <= k < listings[j].len() && !is_reserved(
                            (#[trigger] items_of(listings[j])[k]).key,
                        ) && items_of(listings[j])[k].val_offset == offset;
                    assert(all[in_files + 1 + j][k] == items_of(listings[j])[k]);
                }
            }
            if oldest is Some {
                let m = oldest->0;
                let (t, k) = choose|t: int, k: int|
                    0 <= t < all.len() && 0 <= k < all[t].len() && !is_reserved(
                        (#[trigger] all[t][k]).key,
                    ) && all[t][k].val_offset == m;
                if t < in_files {
                    assert(all[t] == files[t]);
                    assert(is_referenced(files, m));
                } else if t == in_files {
                    lemma_listing_points(active_listing, self.active_memtable@, m);
                    assert(items_of(active_listing)[k] == all[t][k]);
                } else {
                    let j = t - in_files - 1;
                    assert(all[in_files + 1 + j] == items_of(listings[j]));
                    lemma_listing_points(listings[j], sealed[j].1@, m);
                    assert(items_of(listings[j])[k] == all[t][k]);
                    assert(map_points_to(sealed[j].1@, m));
                }
                assert(is_live_offset(old(self).active_memtable@, sealed, data_files@, m));
            }
            assert forall|offset: usize|
                is_live_offset(old(self).active_memtable@, sealed, data_files@, offset) && offset
                    >= old(self).val_log.tail_offset implies tail <= offset by {
                assert(is_referenced(all, offset));
            }
        }
        let tail_entry = Entry::new(tail_key(), tail, now, false);
        let stored = self.active_memtable.insert(&tail_entry);
        assert(stored is Ok);
        self.val_log.set_tail(tail);
        proof {
            assert(self.read_only_memtables == old(self).read_only_memtables);
            assert forall|j: int| 0 <= j < self.sealed().len() implies (#[trigger] self.sealed()[j]).1.wf() by {
                assert(old(self).sealed()[j].1.wf());
            }
        }
        Ok(tail)
    }

    /// Moves the tail of the value log up, at the time the wall clock shows,
    /// to the oldest record that a live entry still points to.
    pub fn reclaim(&mut self, data_files: &Vec<Vec<u8>>) -> (r: Result<usize, StorageEngineError>)
        requires
            old(self).wf(),
        ensures
            final(self).wf(),
            r is Ok <==> old(self).active_memtable.size + SENTINEL_KEY_LEN + ENTRY_OVERHEAD
                <= usize::MAX,
            r matches Err(e) ==> *final(self) == *old(self) && e is InsertToMemTableFailedError,
            r matches Ok(tail) ==> {
                &&& final(self).val_log.tail_offset == tail
                &&& tail >= old(self).val_log.tail_offset
                &&& forall|offset: usize|
                    is_live_offset(
                        old(self).active_memtable@,
                        old(self).sealed(),
                        data_files@,
                        offset,
                    ) && offset >= old(self).val_log.tail_offset ==> tail <= offset
                &&& tail == old(self).val_log.tail_offset || is_live_offset(
                    old(self).active_memtable@,
                    old(self).sealed(),
                    data_files@,
                    tail,
                )
                &&& final(self).read_only_memtables == old(self).read_only_memtables
                &&& final(self).val_log.log == old(self).val_log.log
                &&& final(self).bloom_filters == old(self).bloom_filters
                &&& final(self).buckets == old(self).buckets
                &&& final(self).biggest_key_index == old(self).biggest_key_index
            },
    {
        let now = now_millis();
        self.reclaim_at(data_files, now)
    }

    /// Compacts the bucket at `position` at the time the wall clock shows,
    /// given the bytes of the data files of its tables. A new bucket, should
    /// one be called for, goes by a random identifier.
    pub fn run_compaction(&mut self, position: usize, data_files: &Vec<Vec<u8>>) -> (r: Result<
        CompactionOutcome,
        StorageEngineError,
    >)
        requires
            old(self).wf(),
        ensures
            final(self).wf(),
            final(self).same_memtables(old(self)),
            r matches Err(e) ==> *final(self) == *old(self) && e is CompactionFailed,
            !(position < old(self).buckets.buckets@.len()) ==> r is Err,
            position < old(self).buckets.buckets@.len() && (data_files@.len()
                != old(self).buckets.buckets@[position as int].sstables@.len() || !all_ascending(
                inputs_of(data_files@),
            )) ==> r is Err,
            r matches Ok(out) ==> exists|now: u64|
                old(self).is_table_stamp(now) && #[trigger] final(self).compacted_at(
                    old(self),
                    position,
                    data_files@,
                    now,
                    out,
                ),
            old(self).always_compacts(position, data_files@) ==> r is Ok,
            old(self).never_compacts(position, data_files@) ==> r is Err,
            r is Ok ==> exists|now: u64, fresh_id: BucketID|
                old(self).is_table_stamp(now) && #[trigger] old(self).can_compact_at(
                    position,
                    data_files@,
                    now,
                    fresh_id,
                ),
    {
        let now = self.next_table_stamp();
        let fresh_id = random_uuid();
        self.compact_bucket_at(position, data_files, now, fresh_id)
    }
}

/// A filter that is tied to none of the tables that go is kept.
pub proof fn lemma_filter_stays(filters: Seq<BloomFilter>, tables: Seq<Table>, j: int)
    requires
        0 <= j < filters.len(),
        !is_listed(filters[j].sstable_path, tables),
    ensures
        filters_kept(filters, tables).contains(filters[j]),
    decreases filters.len(),
{
    let shorter = filters.drop_last();
    let inner = filters_kept(shorter, tables);
    if j == filters.len() - 1 {
        assert(inner.push(filters.last())[inner.len() as int] == filters[j]);
    } else {
        lemma_filter_stays(shorter, tables, j);
        assert(shorter[j] == filters[j]);
        let i = choose|i: int| 0 <= i < inner.len() && inner[i] == filters[j];
        if !is_listed(filters.last().sstable_path, tables) {
            assert(inner.push(filters.last())[i] == filters[j]);
        }
    }
}

/// What a pass over the buckets that are due asks of the caller next.
#[derive(Debug)]
pub enum PassStep {
    /// Compact the bucket at this place.
    Compact(usize),
    /// Move the tail of the value log up to the oldest record that is still
    /// live.
    Reclaim,
    /// Nothing is left to do.
    Done,
}

/// A pass over the buckets that are due for compaction: the places that are
/// still to be compacted, whether a bucket was compacted, and whether the
/// value log was reclaimed.
#[derive(Debug)]
pub struct CompactionPass {
    pub due: Vec<usize>,
    pub compacted: bool,
    pub reclaimed: bool,
}

impl CompactionPass {
    /// The step that comes next: the buckets go from the last place to the
    /// first, since a compaction adds buckets only at the end; once they are
    /// through, the value log is reclaimed, if a bucket was compacted.
    pub open spec fn next_step(&self) -> PassStep {
        if self.due@.len() > 0 {
            PassStep::Compact(self.due@.last())
        } else if self.compacted && !self.reclaimed {
            PassStep::Reclaim
        } else {
            PassStep::Done
        }
    }

    /// Takes the next step off the pass and hands it out.
    pub fn advance(&mut self) -> (r: PassStep)
        ensures
            r == old(self).next_step(),
            final(self).compacted == old(self).compacted,
            r is Compact ==> final(self).due@ == old(self).due@.drop_last() && final(self).reclaimed
                == old(self).reclaimed,
            r is Reclaim ==> final(self).due@ == old(self).due@ && final(self).reclaimed,
            r is Done ==> final(self).due@ == old(self).due@ && final(self).reclaimed
                == old(self).reclaimed,
    {
        match self.due.pop() {
            Some(position) => PassStep::Compact(position),
            None => {
                if self.compacted && !self.reclaimed {
                    self.reclaimed = true;
                    PassStep::Reclaim
                } else {
                    PassStep::Done
                }
            },
        }
    }

    /// Notes that a bucket was compacted.
    pub fn note_compacted(&mut self)
        ensures
            final(self).compacted,
            final(self).due == old(self).due,
            final(self).reclaimed == old(self).reclaimed,
    {
        self.compacted = true;
    }
}

/// Every table that is kept is none of the tables that go.
pub proof fn lemma_tables_kept(own: Seq<Table>, tables: Seq<Table>)
    ensures
        forall|i: int|
            0 <= i < tables_kept(own, tables).len() ==> !is_listed(
                Some(#[trigger] tables_kept(own, tables)[i]),
                tables,
            ),
    decreases own.len(),
{
    if own.len() > 0 {
        let shorter = own.drop_last();
        lemma_tables_kept(shorter, tables);
        let kept = tables_kept(own, tables);
        let kept_before = tables_kept(shorter, tables);
        assert forall|i: int| 0 <= i < kept.len() implies !is_listed(
            Some(#[trigger] kept[i]),
            tables,
        ) by {
            if i < kept_before.len() {
                assert(kept[i] == kept_before[i]);
            } else {
                assert(kept[i] == own[own.len() - 1]);
            }
        }
    }
}

/// Every filter that is kept was there before and is tied to none of the
/// tables that go.
pub proof fn lemma_filters_kept(filters: Seq<BloomFilter>, tables: Seq<Table>)
    ensures
        forall|i: int|
            0 <= i < filters_kept(filters, tables).len() ==> filters.contains(
                #[trigger] filters_kept(filters, tables)[i],
            ) && !is_listed(filters_kept(filters, tables)[i].sstable_path, tables),
    decreases filters.len(),
{
    if filters.len() > 0 {
        let shorter = filters.drop_last();
        lemma_filters_kept(shorter, tables);
        let kept = filters_kept(filters, tables);
        let kept_before = filters_kept(shorter, tables);
        assert forall|i: int| 0 <= i < kept.len() implies filters.contains(#[trigger] kept[i])
            && !is_listed(kept[i].sstable_path, tables) by {
            if i < kept_before.len() {
                assert(kept[i] == kept_before[i]);
                assert(shorter.contains(kept_before[i]));
                let j = choose|j: int| 0 <= j < shorter.len() && shorter[j] == kept_before[i];
                assert(filters[j] == shorter[j]);
            } else {
                assert(kept[i] == filters[filters.len() - 1]);
            }
        }
    }
}

} // verus!
