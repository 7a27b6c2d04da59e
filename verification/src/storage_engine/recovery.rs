//! Opening a store: starting afresh on an empty value log, or rebuilding the
//! buckets, the filters, the key index and the memtables from what is on
//! disk.

use crate::bloom_filter::{filter_bits, lemma_set_then_contains, probe_of, BloomFilter, FilterRate};
use crate::cfg::Config;
use crate::clock::now_millis;
use crate::compaction::bucket::{Bucket, BucketID, BucketMap};
use crate::consts::{
    head_entry_key, head_key, is_reserved, tail_entry_key, tail_key, WRITE_BUFFER_SIZE,
};
use crate::err::StorageEngineError;
use crate::key_range::range::KeyRange;
use crate::keys::{
    clone_key, key_le, key_lt, key_order, lemma_key_le_total, lemma_key_le_transitive, KeyOrder,
};
use crate::memtable::index::{empty_index, IndexValue};
use crate::memtable::inmemory::{Entry, InMemoryTable, ENTRY_OVERHEAD};
use crate::memtable::sealed::{
    find_sealed, has_id, no_tables, sealed_get_index, sealed_insert, sealed_len, sealed_new,
    sealed_tables, SealedTables,
};
use crate::names::{parse_uuid, uuid_parsed};
use crate::sstable::sst::{items_from, items_of, Item, SSTable};
use crate::sstable::table::Table;
use crate::storage_engine::guarantees::lemma_newest_hit_is_entry;
use crate::storage_engine::storage::{
    joined_path, latest_hit, newest_hit, DirPath, SizeUnit, StorageEngine, BUCKETS_DIRECTORY_NAME,
    META_DIRECTORY_NAME, VALUE_LOG_DIRECTORY_NAME,
};
use crate::value_log::{
    last_entry, record_at, record_bytes, record_len, records_from, times_ascend, Record, ValueLog,
};
use vstd::prelude::*;
use vstd::string::StringSliceAdditionalSpecFns;
use vstd::utf8::encode_utf8;

verus! {

/// One file of a sorted table: its path and its bytes.
#[derive(Debug)]
pub struct FileImage {
    pub path: String,
    pub bytes: Vec<u8>,
}

/// One sorted table as found on disk: the directory of its bucket, its own
/// directory and the files in it.
#[derive(Debug)]
pub struct TableImage {
    pub bucket_dir: String,
    pub dir: String,
    pub files: Vec<FileImage>,
}

/// A store as found on disk: the bytes of the value log and every sorted
/// table.
#[derive(Debug)]
pub struct StoreImage {
    pub vlog: Vec<u8>,
    pub tables: Vec<TableImage>,
}

/// What recovery learns from one sorted table.
#[derive(Debug)]
pub struct RecoveredTable {
    pub bucket_id: BucketID,
    pub table: Table,
    pub filter: BloomFilter,
    pub envelope: Option<(Vec<u8>, Vec<u8>)>,
    pub head: Option<IndexValue>,
    pub tail: Option<IndexValue>,
    /// The latest creation time among the table's entries; zero where it has
    /// none.
    pub newest: u64,
}

/// The word that goes before the UUID in the name of a bucket directory.
pub open spec fn bucket_word() -> Seq<u8> {
    seq![98u8, 117u8, 99u8, 107u8, 101u8, 116u8]
}

/// The byte that separates the parts of a path.
pub const PATH_SEPARATOR: u8 = 47;

/// Whether `word` stands in `text` at `at`.
pub open spec fn occurs_at(text: Seq<u8>, word: Seq<u8>, at: int) -> bool {
    0 <= at && at + word.len() <= text.len() && text.subrange(at, at + word.len()) == word
}

/// Whether `at` is the last place where `word` stands in `text`.
pub open spec fn is_last_occurrence(text: Seq<u8>, word: Seq<u8>, at: int) -> bool {
    occurs_at(text, word, at) && forall|later: int| later > at ==> !occurs_at(text, word, later)
}

/// Whether `at` is the first place where the byte `b` stands in `text`.
pub open spec fn is_first_index(text: Seq<u8>, b: u8, at: int) -> bool {
    0 <= at < text.len() && text[at] == b && forall|i: int| 0 <= i < at ==> text[i] != b
}

/// Whether `id` is the bucket identifier that `path` carries: what stands
/// between the last "bucket" in the path and the next separator. A path
/// without "bucket", or without a separator behind it, carries the empty
/// identifier.
pub open spec fn is_bucket_id_of(path: Seq<u8>, id: Seq<u8>) -> bool {
    if exists|at: int| occurs_at(path, bucket_word(), at) {
        exists|at: int| #[trigger]
            is_last_occurrence(path, bucket_word(), at) && {
                let rest = path.subrange(at + 6, path.len() as int);
                if exists|end: int| is_first_index(rest, PATH_SEPARATOR, end) {
                    exists|end: int| #[trigger]
                        is_first_index(rest, PATH_SEPARATOR, end) && id == rest.subrange(0, end)
                } else {
                    id == Seq::<u8>::empty()
                }
            }
    } else {
        id == Seq::<u8>::empty()
    }
}

/// Every entry of `m` but the engine's own points to its record in `log`: the
/// record at the entry's offset has the entry's key, creation time and
/// tombstone flag.
pub open spec fn points_into(m: Map<Seq<u8>, IndexValue>, log: Seq<u8>) -> bool {
    forall|k: Seq<u8>| #[trigger]
        m.dom().contains(k) && !is_reserved(k) ==> matches_record(k, m[k], log)
}

/// The record at the offset of `value` in `log` has the key `key` and the
/// creation time and tombstone flag of `value`.
pub open spec fn matches_record(key: Seq<u8>, value: IndexValue, log: Seq<u8>) -> bool {
    &&& record_at(log, value.0 as int) matches Some(rec)
    &&& rec.key == key
    &&& rec.created_at == value.1
    &&& rec.is_tombstone == value.2
}

/// What `entry` stores under its key.
pub open spec fn value_of_entry(entry: Entry<Vec<u8>, usize>) -> IndexValue {
    (entry.val_offset, entry.created_at, entry.is_tombstone)
}

/// Whether one of the memtables has an entry for `key`.
pub open spec fn key_known(
    active: InMemoryTable,
    sealed: Seq<(Seq<u8>, InMemoryTable)>,
    key: Seq<u8>,
) -> bool {
    active@.dom().contains(key) || exists|i: int|
        0 <= i < sealed.len() && (#[trigger] sealed[i]).1@.dom().contains(key)
}

/// Whether `word` stands in `text` at `at`.
pub fn word_at(text: &[u8], word: &[u8], at: usize) -> (r: bool)
    ensures
        r == occurs_at(text@, word@, at as int),
{
    if word.len() > text.len() || at > text.len() - word.len() {
        return false;
    }
    let total = text.len();
    let mut i: usize = 0;
    while i < word.len()
        invariant
            i <= word@.len(),
            total == text@.len(),
            at + word@.len() <= text@.len(),
            forall|j: int| 0 <= j < i ==> text@[at + j] == word@[j],
        decreases word.len() - i,
    {
        if text[at + i] != word[i] {
            assert(text@.subrange(at as int, at + word@.len())[i as int] != word@[i as int]);
            return false;
        }
        i += 1;
    }
    assert(text@.subrange(at as int, at + word@.len()) =~= word@);
    true
}

/// The bucket identifier that a path carries: what stands between the last
/// "bucket" in the path and the next separator.
pub fn bucket_id_from_path(path: &[u8]) -> (r: Vec<u8>)
    ensures
        is_bucket_id_of(path@, r@),
{
    let mut word: Vec<u8> = Vec::new();
    word.push(98u8);
    word.push(117u8);
    word.push(99u8);
    word.push(107u8);
    word.push(101u8);
    word.push(116u8);
    assert(word@ =~= bucket_word());
    let mut out: Vec<u8> = Vec::new();
    if path.len() < 6 {
        return out;
    }
    let mut at: usize = path.len() - 6;
    let mut found = false;
    while !found
        invariant
            word@ == bucket_word(),
            out@ == Seq::<u8>::empty(),
            at + 6 <= path@.len(),
            forall|later: int| later > at ==> !occurs_at(path@, bucket_word(), later),
            found ==> occurs_at(path@, bucket_word(), at as int),
        decreases
                if found {
                    0
                } else {
                    at + 1
                },
    {
        if word_at(path, word.as_slice(), at) {
            found = true;
        } else if at == 0 {
            return out;
        } else {
            at -= 1;
        }
    }
    assert(is_last_occurrence(path@, bucket_word(), at as int));
    let start = at + 6;
    let ghost rest = path@.subrange(start as int, path@.len() as int);
    let mut end: usize = start;
    while end < path.len() && path[end] != PATH_SEPARATOR
        invariant
            start <= end <= path@.len(),
            rest == path@.subrange(start as int, path@.len() as int),
            forall|i: int| 0 <= i < end - start ==> rest[i] != PATH_SEPARATOR,
        decreases path.len() - end,
    {
        assert(rest[end - start] == path@[end as int]);
        end += 1;
    }
    if end == path.len() {
        return out;
    }
    assert(rest[end - start] == path@[end as int]);
    assert(is_first_index(rest, PATH_SEPARATOR, end - start));
    let mut i: usize = start;
    while i < end
        invariant
            start <= i <= end <= path@.len(),
            out@ == path@.subrange(start as int, i as int),
        decreases end - i,
    {
        out.push(path[i]);
        assert(out@ =~= path@.subrange(start as int, i + 1));
        i += 1;
    }
    assert(out@ =~= rest.subrange(0, end - start));
    out
}

/// Whether one of the first `k` probes for one of the first `upto` keys of
/// `entries` falls on the bit `p` of a filter of `num_bits` bits.
pub open spec fn is_probed(
    entries: Seq<Entry<Vec<u8>, usize>>,
    upto: int,
    k: nat,
    num_bits: int,
    p: int,
) -> bool {
    exists|e: int, j: nat|
        0 <= e < upto && j < k && #[trigger] probe_of(entries[e].key@, num_bits, j) == p
}

/// A filter that reports every key of `entries` as possibly present,
/// dimensioned for that many entries at `rate`.
pub fn build_bloomfilter_from_sstable(entries: &Vec<Entry<Vec<u8>, usize>>, rate: FilterRate) -> (r:
    BloomFilter)
    ensures
        r.wf(),
        r.sstable_path is None,
        r.no_of_hash_func == rate.no_of_hash_func,
        r.bit_vec@.len() == filter_bits(rate, entries.len()),
        forall|p: int|
            0 <= p < r.bit_vec@.len() ==> (#[trigger] r.bit_vec@[p] <==> is_probed(
                entries@,
                entries@.len() as int,
                rate.no_of_hash_func as nat,
                r.bit_vec@.len() as int,
                p,
            )),
        forall|i: int| 0 <= i < entries@.len() ==> r.may_contain((#[trigger] entries@[i]).key@),
{
    let mut filter = BloomFilter::new(rate, entries.len());
    let ghost n = filter.bit_vec@.len() as int;
    let ghost k = rate.no_of_hash_func as nat;
    let mut i: usize = 0;
    while i < entries.len()
        invariant
            i <= entries@.len(),
            filter.wf(),
            filter.sstable_path is None,
            filter.no_of_hash_func == rate.no_of_hash_func,
            k == rate.no_of_hash_func as nat,
            n == filter.bit_vec@.len(),
            n == filter_bits(rate, entries.len()),
            forall|p: int|
                0 <= p < n ==> (#[trigger] filter.bit_vec@[p] <==> is_probed(
                    entries@,
                    i as int,
                    k,
                    n,
                    p,
                )),
            forall|j: int| 0 <= j < i ==> filter.may_contain((#[trigger] entries@[j]).key@),
        decreases entries.len() - i,
    {
        let ghost before = filter;
        filter.set(&entries[i].key);
        proof {
            lemma_set_then_contains(before, filter, entries@[i as int].key@);
            assert forall|p: int| 0 <= p < n implies (#[trigger] filter.bit_vec@[p] <==> is_probed(
                entries@,
                i + 1,
                k,
                n,
                p,
            )) by {
                if is_probed(entries@, i + 1, k, n, p) {
                    let (e, j) = choose|e: int, j: nat|
                        0 <= e < i + 1 && j < k && #[trigger] probe_of(entries@[e].key@, n, j)
                            == p;
                    if e < i {
                        assert(is_probed(entries@, i as int, k, n, p));
                    }
                }
                if before.bit_vec@[p] {
                    let (e, j) = choose|e: int, j: nat|
                        0 <= e < i && j < k && #[trigger] probe_of(entries@[e].key@, n, j) == p;
                    assert(0 <= e < i + 1 && j < k && probe_of(entries@[e].key@, n, j) == p);
                }
                if exists|j: nat| j < k && probe_of(entries@[i as int].key@, n, j) == p {
                    let j = choose|j: nat| j < k && probe_of(entries@[i as int].key@, n, j) == p;
                    assert(0 <= i < i + 1 && j < k && probe_of(entries@[i as int].key@, n, j)
                        == p);
                }
            }
        }
        i += 1;
    }
    filter
}

/// The latest creation time among `entries`, and `floor` where none is
/// later.
pub fn newest_time(entries: &Vec<Entry<Vec<u8>, usize>>, floor: u64) -> (r: u64)
    ensures
        r >= floor,
        forall|i: int| 0 <= i < entries@.len() ==> (#[trigger] entries@[i]).created_at <= r,
        r == floor || exists|i: int|
            0 <= i < entries@.len() && (#[trigger] entries@[i]).created_at == r,
{
    let mut best = floor;
    let mut i: usize = 0;
    while i < entries.len()
        invariant
            i <= entries@.len(),
            best >= floor,
            forall|j: int| 0 <= j < i ==> (#[trigger] entries@[j]).created_at <= best,
            best == floor || exists|j: int|
                0 <= j < i && (#[trigger] entries@[j]).created_at == best,
        decreases entries.len() - i,
    {
        if entries[i].created_at > best {
            best = entries[i].created_at;
        }
        i += 1;
    }
    best
}

/// The smallest and the biggest key of `entries`; `None` where there is no
/// entry.
pub fn key_envelope(entries: &Vec<Entry<Vec<u8>, usize>>) -> (r: Option<(Vec<u8>, Vec<u8>)>)
    ensures
        r is Some <==> entries@.len() > 0,
        r matches Some((smallest, biggest)) ==> {
            &&& exists|i: int| 0 <= i < entries@.len() && (#[trigger] entries@[i]).key@ == smallest@
            &&& exists|i: int| 0 <= i < entries@.len() && (#[trigger] entries@[i]).key@ == biggest@
            &&& forall|i: int|
                0 <= i < entries@.len() ==> key_le(smallest@, (#[trigger] entries@[i]).key@)
                    && key_le(entries@[i].key@, biggest@)
        },
{
    if entries.len() == 0 {
        return None;
    }
    let mut lo: usize = 0;
    let mut hi: usize = 0;
    let mut i: usize = 1;
    while i < entries.len()
        invariant
            1 <= i <= entries@.len(),
            lo < i,
            hi < i,
            forall|j: int|
                0 <= j < i ==> key_le(entries@[lo as int].key@, (#[trigger] entries@[j]).key@)
                    && key_le(entries@[j].key@, entries@[hi as int].key@),
        decreases entries.len() - i,
    {
        let ghost old_lo = lo;
        let ghost old_hi = hi;
        match key_order(entries[i].key.as_slice(), entries[lo].key.as_slice()) {
            KeyOrder::Less => {
                lo = i;
            },
            _ => {},
        }
        match key_order(entries[i].key.as_slice(), entries[hi].key.as_slice()) {
            KeyOrder::Greater => {
                hi = i;
            },
            _ => {},
        }
        proof {
            let here = entries@[i as int].key@;
            lemma_key_le_total(here, entries@[old_lo as int].key@);
            lemma_key_le_total(here, entries@[old_hi as int].key@);
            assert forall|j: int| 0 <= j < i + 1 implies key_le(
                entries@[lo as int].key@,
                (#[trigger] entries@[j]).key@,
            ) && key_le(entries@[j].key@, entries@[hi as int].key@) by {
                if j < i {
                    if lo == i {
                        lemma_key_le_transitive(
                            here,
                            entries@[old_lo as int].key@,
                            entries@[j].key@,
                        );
                    }
                    if hi == i {
                        lemma_key_le_transitive(
                            entries@[j].key@,
                            entries@[old_hi as int].key@,
                            here,
                        );
                    }
                }
            }
        }
        i += 1;
    }
    Some((clone_key(&entries[lo].key), clone_key(&entries[hi].key)))
}

/// The entry that `entries` hold for `key`: the first in their order.
pub open spec fn first_value_for(items: Seq<Item>, key: Seq<u8>) -> Option<IndexValue>
    decreases items.len(),
{
    if items.len() == 0 {
        None
    } else if items[0].key == key {
        Some((items[0].val_offset, items[0].created_at, items[0].is_tombstone))
    } else {
        first_value_for(items.drop_first(), key)
    }
}

/// Whether the files of `image` can be told apart as a data file and an index
/// file: there are exactly two, under different paths.
pub open spec fn has_two_files(image: TableImage) -> bool {
    image.files@.len() == 2 && encode_utf8(image.files@[0].path@) != encode_utf8(
        image.files@[1].path@,
    )
}

/// The position of the data file among the two files of `image`: the file
/// whose path sorts first.
pub open spec fn data_file_position(image: TableImage) -> int {
    if key_lt(encode_utf8(image.files@[0].path@), encode_utf8(image.files@[1].path@)) {
        0
    } else {
        1
    }
}

/// The newer of two sentinel entries: `candidate` where it was created after
/// `best`, else `best`.
pub open spec fn newer_sentinel(best: (usize, u64), candidate: Option<IndexValue>) -> (usize, u64) {
    match candidate {
        Some((offset, created_at, _)) if created_at > best.1 => (offset, created_at),
        _ => best,
    }
}

/// The bytes of the data file of a table as found on disk.
pub open spec fn data_bytes_of(image: TableImage) -> Seq<u8> {
    image.files@[data_file_position(image)].bytes@
}

/// The newest sentinel entry for `key` that `tables` carry, as offset and
/// creation time: of the entries created last the one in the first table.
/// Offset zero at time zero where no table carries one.
pub open spec fn newest_sentinel(tables: Seq<TableImage>, key: Seq<u8>) -> (usize, u64)
    decreases tables.len(),
{
    if tables.len() == 0 {
        (0, 0)
    } else {
        newer_sentinel(
            newest_sentinel(tables.drop_last(), key),
            first_value_for(items_from(data_bytes_of(tables.last()), 0), key),
        )
    }
}

/// Whether a table as found on disk can be taken into the store.
pub open spec fn recoverable(image: TableImage) -> bool {
    has_two_files(image) && exists|id: Seq<u8>|
        is_bucket_id_of(encode_utf8(image.dir@), id) && uuid_parsed(id) is Some
}

/// Whether `filter` is the filter that recovery builds for the table of
/// `image`: it is tied to the table's data file and reports every key of the
/// data file as possibly present.
pub open spec fn tied_to_image(filter: BloomFilter, image: TableImage) -> bool {
    &&& filter.sstable_path matches Some(table)
    &&& table.dir == image.dir
    &&& table.data_file_path == image.files@[data_file_position(image)].path
    &&& table.index_file_path == image.files@[1 - data_file_position(image)].path
    &&& forall|n: int|
        0 <= n < items_from(data_bytes_of(image), 0).len() ==> filter.may_contain(
            (#[trigger] items_from(data_bytes_of(image), 0)[n]).key,
        )
}

/// The identifier of the bucket that a table as found on disk belongs to.
pub open spec fn bucket_id_in(image: TableImage) -> BucketID {
    uuid_parsed(choose|id: Seq<u8>| is_bucket_id_of(encode_utf8(image.dir@), id))->0
}

/// Whether the bucket that goes by `id` holds a table with the data file
/// `path`.
pub open spec fn bucket_holds(buckets: Seq<Bucket>, id: BucketID, path: Seq<char>) -> bool {
    exists|b: int, t: int|
        0 <= b < buckets.len() && 0 <= t < buckets[b].sstables@.len() && (#[trigger] buckets[b]).id
            == id && (#[trigger] buckets[b].sstables@[t]).data_file_path@ == path
}

/// Whether `range` is the envelope that recovery registers for the table of
/// `image`: it names the table and encloses every key of its data file.
pub open spec fn envelope_of_image(range: crate::key_range::range::Range, image: TableImage) -> bool {
    &&& range.sst.data_file_path == image.files@[data_file_position(image)].path
    &&& range.sst.dir == image.dir
    &&& forall|n: int|
        0 <= n < items_from(data_bytes_of(image), 0).len() ==> key_le(
            range.smallest_key@,
            (#[trigger] items_from(data_bytes_of(image), 0)[n]).key,
        ) && key_le(items_from(data_bytes_of(image), 0)[n].key, range.biggest_key@)
}

/// Whether `engine`, together with the `bytes` to append to the value log,
/// is what opening a store at `created_at` comes to, given what was found on
/// disk.
pub open spec fn is_opening(
    engine: StorageEngine,
    bytes: Seq<u8>,
    dir: DirPath,
    capacity: int,
    config: Config,
    image: StoreImage,
    created_at: u64,
) -> bool {
    &&& engine.wf()
    &&& engine.faithful()
    &&& engine.stamped()
    &&& engine.dir == dir
    &&& engine.config == config
    &&& engine.active_memtable.capacity == capacity
    &&& engine.active_memtable.false_positive_rate == config.false_positive_rate
    &&& image.vlog@.len() == 0 ==> {
        &&& bytes == fresh_log(created_at)
        &&& engine.val_log.log@ == fresh_log(created_at)
        &&& engine.val_log.tail_offset == 0
        &&& engine.val_log.head_offset == FRESH_HEAD_OFFSET
        &&& engine.active_memtable@ == empty_index().insert(
            tail_entry_key(),
            (0usize, created_at, false),
        ).insert(head_entry_key(), (FRESH_HEAD_OFFSET, created_at, false))
        &&& engine.sealed() == no_tables()
        &&& engine.bloom_filters@.len() == 0
        &&& engine.buckets.buckets@.len() == 0
        &&& engine.biggest_key_index.key_ranges@.len() == 0
        &&& engine.mirrors_log()
        &&& engine.chronological()
        &&& engine.in_step()
        &&& engine.last_write_stamp == created_at
    }
    &&& image.vlog@.len() > 0 ==> {
        let replayed = records_from(image.vlog@, engine.val_log.head_offset as int);
        &&& bytes.len() == 0
        &&& engine.val_log.log@ == image.vlog@
        &&& forall|i: int| 0 <= i < image.tables@.len() ==> recoverable(#[trigger] image.tables@[i])
        &&& engine.val_log.head_offset == newest_sentinel(image.tables@, head_entry_key()).0
        &&& engine.val_log.tail_offset == newest_sentinel(image.tables@, tail_entry_key()).0
        &&& engine.bloom_filters@.len() == image.tables@.len()
        &&& forall|i: int|
            0 <= i < image.tables@.len() ==> tied_to_image(
                #[trigger] engine.bloom_filters@[i],
                image.tables@[i],
            )
        &&& forall|i: int|
            0 <= i < image.tables@.len() ==> bucket_holds(
                engine.buckets.buckets@,
                bucket_id_in(#[trigger] image.tables@[i]),
                image.tables@[i].files@[data_file_position(image.tables@[i])].path@,
            )
        &&& forall|p: Seq<char>|
            engine.biggest_key_index@.dom().contains(p) ==> exists|i: int|
                0 <= i < image.tables@.len() && envelope_of_image(
                    #[trigger] engine.biggest_key_index@[p],
                    #[trigger] image.tables@[i],
                )
        &&& forall|n: int|
            1 <= n < replayed.len() ==> key_known(
                engine.active_memtable,
                engine.sealed(),
                (#[trigger] replayed[n]).1.key,
            )
        &&& forall|k: Seq<u8>|
            #[trigger] engine.first_in_tiers(k) == last_entry(
                gone_through(replayed, replayed.len() as int),
                k,
            )
        &&& times_ascend(replayed) ==> forall|k: Seq<u8>|
            #[trigger] engine.memtable_entry(k) == last_entry(
                gone_through(replayed, replayed.len() as int),
                k,
            )
        &&& times_ascend(replayed) ==> engine.chronological()
        &&& from_records(engine.active_memtable@, replayed, replayed.len() as int)
        &&& forall|i: int|
            0 <= i < engine.sealed().len() ==> (#[trigger] engine.sealed()[i]).1.read_only
                && from_records(engine.sealed()[i].1@, replayed, replayed.len() as int)
        &&& seals_nothing(replayed, capacity) ==> engine.sealed() == no_tables()
    }
}

/// Whether every one of `tables` can be taken into the store.
pub open spec fn all_recoverable(tables: Seq<TableImage>) -> bool {
    forall|i: int| 0 <= i < tables.len() ==> recoverable(#[trigger] tables[i])
}

/// Whether the table at place `i` is the first of `tables` that cannot be
/// taken into the store.
pub open spec fn is_first_unrecoverable(tables: Seq<TableImage>, i: int) -> bool {
    &&& 0 <= i < tables.len()
    &&& !recoverable(tables[i])
    &&& forall|j: int| 0 <= j < i ==> recoverable(#[trigger] tables[j])
}

/// The records that opening a store replays into the memtables: those from
/// the newest `HEAD` sentinel of the tables on.
pub open spec fn replayed_on_opening(image: StoreImage) -> Seq<(int, Record)> {
    records_from(image.vlog@, newest_sentinel(image.tables@, head_entry_key()).0 as int)
}

/// Whether `r` is an outcome that opening a store owes, given what was found
/// on disk and the capacity of a memtable in bytes.
///
/// Opening succeeds on an empty value log. On any other it succeeds where
/// every table can be taken into the store and the replay of the value log
/// seals no memtable. It fails where a table cannot be taken in, with the
/// error of the first such table: `InvalidSSTableDirectoryError` where the
/// table has not its two files, `InvaidUUIDParseString` where its bucket has no
/// identifier. `MemTableRecoveryError` comes only where every table was taken
/// in and the replay had a memtable to seal.
pub open spec fn opens_as_owed(
    r: Result<(StorageEngine, Vec<u8>), StorageEngineError>,
    capacity: int,
    image: StoreImage,
) -> bool {
    &&& image.vlog@.len() == 0 ==> r is Ok
    &&& all_recoverable(image.tables@) && seals_nothing(replayed_on_opening(image), capacity)
        ==> r is Ok
    &&& image.vlog@.len() > 0 && !all_recoverable(image.tables@) ==> r is Err
    &&& r matches Err(e) ==> {
        &&& image.vlog@.len() > 0
        &&& e is InvalidSSTableDirectoryError || e is InvaidUUIDParseString
            || e is MemTableRecoveryError
        &&& e is MemTableRecoveryError <==> all_recoverable(image.tables@)
        &&& e is MemTableRecoveryError ==> !seals_nothing(replayed_on_opening(image), capacity)
        &&& forall|i: int| #[trigger]
            is_first_unrecoverable(image.tables@, i) ==> {
                &&& e is InvalidSSTableDirectoryError <==> !has_two_files(image.tables@[i])
                &&& e is InvaidUUIDParseString <==> has_two_files(image.tables@[i])
            }
    }
}

/// Whether `dir` is the layout below `root`: the value log, the buckets and
/// the checkpoints, each joined to the root.
pub open spec fn is_layout(dir: DirPath, root: String) -> bool {
    &&& dir.root == root
    &&& dir.val_log@ == joined_path(root@, VALUE_LOG_DIRECTORY_NAME@)
    &&& dir.buckets@ == joined_path(root@, BUCKETS_DIRECTORY_NAME@)
    &&& dir.meta@ == joined_path(root@, META_DIRECTORY_NAME@)
}

/// The record of a sentinel `key` written at `created_at`.
pub open spec fn sentinel_record(key: Seq<u8>, created_at: u64) -> Record {
    Record { key, value: Seq::empty(), created_at, is_tombstone: false }
}

/// The bytes that open a fresh value log: the record of the `TAIL` sentinel
/// and behind it the record of the `HEAD` sentinel, both written at
/// `created_at`.
pub open spec fn fresh_log(created_at: u64) -> Seq<u8> {
    record_bytes(sentinel_record(tail_entry_key(), created_at)) + record_bytes(
        sentinel_record(head_entry_key(), created_at),
    )
}

/// The offset of the `HEAD` sentinel's record in a fresh value log.
pub const FRESH_HEAD_OFFSET: usize = 22;

/// Whether `engine`, with the `bytes` to write to the empty value log, is a
/// store that starts afresh at `created_at`: the value log holds the records
/// of the two sentinels, the active memtable holds their entries, and there
/// is no sealed memtable, no filter, no bucket and no key envelope.
pub open spec fn is_fresh_start(engine: StorageEngine, bytes: Seq<u8>, created_at: u64) -> bool {
    &&& bytes == fresh_log(created_at)
    &&& engine.val_log.log@ == fresh_log(created_at)
    &&& engine.val_log.tail_offset == 0
    &&& engine.val_log.head_offset == FRESH_HEAD_OFFSET
    &&& engine.active_memtable@ == empty_index().insert(
        tail_entry_key(),
        (0usize, created_at, false),
    ).insert(head_entry_key(), (FRESH_HEAD_OFFSET, created_at, false))
    &&& engine.sealed() == no_tables()
    &&& engine.bloom_filters@.len() == 0
    &&& engine.buckets.buckets@.len() == 0
    &&& engine.biggest_key_index.key_ranges@.len() == 0
    &&& engine.mirrors_log()
    &&& engine.chronological()
    &&& engine.stamped()
    &&& engine.in_step()
    &&& engine.last_write_stamp == created_at
}

impl StorageEngine {
    /// The bucket identifier that a path carries, as text: what stands between
    /// the last "bucket" in the path and the next separator.
    pub fn get_bucket_id_from_full_bucket_path(full_path: &str) -> (r: Vec<u8>)
        ensures
            is_bucket_id_of(full_path.spec_bytes(), r@),
    {
        bucket_id_from_path(full_path.as_bytes())
    }

    /// Replays one entry of the value log into the memtables. Where the
    /// active memtable is full for the entry, it is sealed under `table_id`
    /// and an empty memtable with its settings takes its place; the active
    /// memtable then takes the entry.
    ///
    /// Fails, changing nothing, where `table_id` is called for and taken, or
    /// where the byte count would leave the range of `usize`.
    pub fn replay_entry(
        active: &mut InMemoryTable,
        sealed: &mut SealedTables,
        entry: &Entry<Vec<u8>, usize>,
        table_id: Vec<u8>,
    ) -> (r: Result<(), StorageEngineError>)
        requires
            old(active).wf(),
            !old(active).read_only,
            old(active).capacity > 0,
        ensures
            r is Ok <==> can_replay(
                *old(active),
                sealed_tables(*old(sealed)),
                entry.key@.len() as usize,
                table_id@,
            ),
            r is Ok ==> is_replay_of(
                *final(active),
                sealed_tables(*final(sealed)),
                *old(active),
                sealed_tables(*old(sealed)),
                *entry,
                table_id@,
            ),
            r matches Err(e) ==> {
                &&& *final(active) == *old(active)
                &&& sealed_tables(*final(sealed)) == sealed_tables(*old(sealed))
                &&& e matches StorageEngineError::InsertToMemTableFailedError { value_offset, .. }
                &&& value_offset == entry.val_offset
            },
    {
        let key_len = entry.key.len();
        if active.is_full(key_len) {
            if find_sealed(sealed, &table_id).is_some() || key_len > usize::MAX - ENTRY_OVERHEAD {
                return Err(
                    StorageEngineError::InsertToMemTableFailedError {
                        key: String::new(),
                        value_offset: entry.val_offset,
                    },
                );
            }
            let mut table = InMemoryTable::with_specified_capacity_and_rate(
                SizeUnit::Bytes,
                active.capacity,
                active.false_positive_rate,
            );
            std::mem::swap(active, &mut table);
            table.read_only = true;
            assert(table == sealed_form(*old(active)));
            sealed_insert(sealed, table_id, table);
        }
        active.insert(entry)
    }

    /// Rebuilds the memtables from the value log: replays the records of
    /// `vlog` from `head_offset` on, but for the record at `head_offset`
    /// itself, which a sorted table holds already. A memtable that is full is
    /// sealed under a random identifier and a new one takes its place.
    ///
    /// Every entry of the memtables that come out points to its record, and
    /// every key that was replayed is in one of them.
    #[verifier::rlimit(30)]
    pub fn recover_memtable(
        size_unit: SizeUnit,
        capacity: usize,
        false_positive_rate: FilterRate,
        vlog: &[u8],
        head_offset: usize,
    ) -> (r: Result<(InMemoryTable, SealedTables), StorageEngineError>)
        requires
            capacity > 0,
            capacity * size_unit.factor() <= usize::MAX,
        ensures
            records_from(vlog@, head_offset as int).len() <= 1 ==> r is Ok,
            seals_nothing(
                records_from(vlog@, head_offset as int),
                capacity * size_unit.factor(),
            ) ==> r is Ok,
            r matches Err(e) ==> {
                let replayed = records_from(vlog@, head_offset as int);
                &&& e matches StorageEngineError::InsertToMemTableFailedError { value_offset, .. }
                &&& exists|n: int|
                    1 <= n < replayed.len() && (#[trigger] replayed[n]).0 == value_offset
                &&& !seals_nothing(replayed, capacity * size_unit.factor())
            },
            r matches Ok(tables) ==> {
                let active = tables.0;
                let sealed = sealed_tables(tables.1);
                let replayed = records_from(vlog@, head_offset as int);
                &&& seals_nothing(replayed, capacity * size_unit.factor()) ==> sealed == no_tables()
                    && active.size == replayed_bytes(replayed, replayed.len() as int)
                &&& from_records(active@, replayed, replayed.len() as int)
                &&& forall|i: int|
                    0 <= i < sealed.len() ==> (#[trigger] sealed[i]).1.read_only && from_records(
                        sealed[i].1@,
                        replayed,
                        replayed.len() as int,
                    )
                &&& active.wf()
                &&& !active.read_only
                &&& active.capacity == capacity * size_unit.factor()
                &&& active.size_unit == SizeUnit::Bytes
                &&& active.false_positive_rate == false_positive_rate
                &&& points_into(active@, vlog@)
                &&& forall|i: int|
                    0 <= i < sealed.len() ==> (#[trigger] sealed[i]).1.wf() && points_into(
                        sealed[i].1@,
                        vlog@,
                    )
                &&& forall|n: int|
                    1 <= n < replayed.len() ==> key_known(
                        active,
                        sealed,
                        (#[trigger] replayed[n]).1.key,
                    )
                &&& forall|k: Seq<u8>|
                    #[trigger] latest_held(active@, sealed, k) == last_entry(
                        gone_through(replayed, replayed.len() as int),
                        k,
                    )
                &&& times_ascend(replayed) ==> forall|k: Seq<u8>|
                    #[trigger] held_for(active@, sealed, k) == last_entry(
                        gone_through(replayed, replayed.len() as int),
                        k,
                    )
                &&& times_ascend(replayed) ==> in_time_order(active@, sealed)
            },
    {
        let mut active = InMemoryTable::with_specified_capacity_and_rate(
            size_unit,
            capacity,
            false_positive_rate,
        );
        let mut sealed = sealed_new();
        let mut at: usize = head_offset;
        let ghost replayed = records_from(vlog@, head_offset as int);
        let ghost mut done: int = 0;
        let ghost bytes_capacity = active.capacity;
        loop
            invariant
                0 <= done <= replayed.len(),
                replayed == records_from(vlog@, head_offset as int),
                records_from(vlog@, at as int) == replayed.subrange(done, replayed.len() as int),
                done == 0 ==> at == head_offset,
                done > 0 ==> at > head_offset,
                active.wf(),
                !active.read_only,
                active.capacity == bytes_capacity,
                bytes_capacity == capacity * size_unit.factor(),
                bytes_capacity > 0,
                active.size_unit == SizeUnit::Bytes,
                active.false_positive_rate == false_positive_rate,
                is_replayed_state(active, sealed_tables(sealed), vlog@, replayed, done),
                seals_nothing(replayed, bytes_capacity as int) ==> sealed_tables(sealed)
                    == no_tables() && active.size == replayed_bytes(replayed, done),
            decreases vlog@.len() - at,
        {
            match ValueLog::decode(vlog, at) {
                None => {
                    proof {
                        assert(records_from(vlog@, at as int) =~= Seq::empty());
                        assert(done == replayed.len());
                    }
                    return Ok((active, sealed));
                },
                Some((entry, next)) => {
                    let ghost rec = entry@;
                    proof {
                        let here = records_from(vlog@, at as int);
                        assert(here =~= seq![(at as int, rec)] + records_from(vlog@, next as int));
                        let rest = records_from(vlog@, next as int);
                        let tail = replayed.subrange(done, replayed.len() as int);
                        assert(here == tail);
                        assert(here.len() == rest.len() + 1);
                        assert(here[0] == replayed[done]);
                        assert forall|i: int| 0 <= i < rest.len() implies rest[i] == replayed[done
                            + 1 + i] by {
                            assert(here[i + 1] == rest[i]);
                            assert(tail[i + 1] == replayed[done + i + 1]);
                        }
                        assert(rest =~= replayed.subrange(done + 1, replayed.len() as int));
                    }
                    if at != head_offset {
                        let ghost active_before = active;
                        let ghost before = sealed_tables(sealed);
                        let ghost was_full = active.full_for(rec.key.len() as usize);
                        let id = if active.is_full(entry.key.len()) {
                            InMemoryTable::generate_table_id()
                        } else {
                            Vec::new()
                        };
                        let ghost id_view = id@;
                        let stored = Entry::new(
                            entry.key,
                            at,
                            entry.created_at,
                            entry.is_tombstone,
                        );
                        proof {
                            assert(next == at + record_len(rec));
                            lemma_replayed_bytes_grow(replayed, done + 1, replayed.len() as int);
                            lemma_replayed_bytes_positive(replayed, done);
                            assert(replayed_bytes(replayed, done + 1) == replayed_bytes(
                                replayed,
                                done,
                            ) + replayed[done].1.key.len() + ENTRY_OVERHEAD);
                        }
                        match Self::replay_entry(&mut active, &mut sealed, &stored, id) {
                            Ok(()) => {},
                            Err(e) => {
                                proof {
                                    assert(replayed[done].0 == e->InsertToMemTableFailedError_value_offset);
                                }
                                return Err(e);
                            },
                        }
                        proof {
                            lemma_replay_keeps_track(
                                active_before,
                                before,
                                active,
                                sealed_tables(sealed),
                                stored,
                                id_view,
                                vlog@,
                                replayed,
                                done,
                                rec,
                            );
                        }
                    }
                    proof {
                        if at == head_offset {
                            assert(gone_through(replayed, 1) =~= gone_through(replayed, 0));
                        }
                        done = done + 1;
                    }
                    at = next;
                },
            }
        }
    }

    /// A store that starts afresh at the time `created_at`: the value log
    /// opens with the records of the two sentinels and the active memtable
    /// holds their entries. Hands back the engine and the bytes to write to
    /// the empty value log.
    #[verifier::rlimit(60)]
    #[verifier::spinoff_prover]
    pub fn start_fresh_at(
        dir: DirPath,
        size_unit: SizeUnit,
        capacity: usize,
        config: &Config,
        created_at: u64,
    ) -> (r: (Self, Vec<u8>))
        requires
            capacity > 0,
            capacity * size_unit.factor() <= usize::MAX,
        ensures
            r.0.wf(),
            r.0.faithful(),
            r.1@ == fresh_log(created_at),
            r.0.val_log.log@ == fresh_log(created_at),
            r.0.val_log.tail_offset == 0,
            r.0.val_log.head_offset == FRESH_HEAD_OFFSET,
            r.0.active_memtable@ == empty_index().insert(
                tail_entry_key(),
                (0usize, created_at, false),
            ).insert(head_entry_key(), (FRESH_HEAD_OFFSET, created_at, false)),
            r.0.active_memtable.capacity == capacity * size_unit.factor(),
            r.0.active_memtable.false_positive_rate == config.false_positive_rate,
            r.0.sealed() == no_tables(),
            r.0.bloom_filters@.len() == 0,
            r.0.buckets.buckets@.len() == 0,
            r.0.biggest_key_index.key_ranges@.len() == 0,
            r.0.dir == dir,
            r.0.config == *config,
            r.0.mirrors_log(),
            r.0.chronological(),
            r.0.stamped(),
            r.0.last_write_stamp == created_at,
            r.0.in_step(),
    {
        let mut active_memtable = InMemoryTable::with_specified_capacity_and_rate(
            size_unit,
            capacity,
            config.false_positive_rate,
        );
        let mut val_log = ValueLog::new();
        let empty: Vec<u8> = Vec::new();
        let (tail_offset, mut bytes) = val_log.append(
            tail_key().as_slice(),
            empty.as_slice(),
            created_at,
            false,
        );
        let (head_offset, head_bytes) = val_log.append(
            head_key().as_slice(),
            empty.as_slice(),
            created_at,
            false,
        );
        crate::codec::append_bytes(&mut bytes, head_bytes.as_slice());
        val_log.set_head(head_offset);
        val_log.set_tail(tail_offset);
        let tail_entry = Entry::new(tail_key(), tail_offset, created_at, false);
        let head_entry = Entry::new(head_key(), head_offset, created_at, false);
        let stored_tail = active_memtable.insert(&tail_entry);
        assert(stored_tail is Ok);
        let stored_head = active_memtable.insert(&head_entry);
        assert(stored_head is Ok);
        let buckets = BucketMap::new(dir.buckets.clone());
        let engine = StorageEngine {
            dir,
            active_memtable,
            bloom_filters: Vec::new(),
            val_log,
            buckets,
            biggest_key_index: KeyRange::new(),
            config: *config,
            read_only_memtables: sealed_new(),
            last_table_stamp: 0,
            last_write_stamp: created_at,
        };
        proof {
            assert(val_log.log@ =~= fresh_log(created_at));
            assert forall|k: Seq<u8>| #[trigger]
                engine.active_memtable@.dom().contains(k) implies is_reserved(k) by {
                assert(k == tail_entry_key() || k == head_entry_key());
            }
            lemma_fresh_log_mirrored(created_at);
            let records = records_from(fresh_log(created_at), 0);
            assert(records[0].1.created_at == created_at);
            assert(records[1].1.created_at == created_at);
            assert forall|k: Seq<u8>| !is_reserved(k) implies #[trigger] engine.memtable_entry(k)
                == last_entry(gone_through(records, records.len() as int), k) by {
                assert(!engine.active_memtable@.dom().contains(k));
            }
        }
        (engine, bytes)
    }

    /// Opens a store at the time `created_at`, given what is on disk.
    ///
    /// On an empty value log the store starts afresh. Otherwise every sorted
    /// table is taken into its bucket, with a filter over its keys and the
    /// envelope of its keys; the newest `HEAD` and `TAIL` sentinels of the
    /// tables become the head and the tail of the value log; and the memtables
    /// are rebuilt from the records behind the head.
    ///
    /// Hands back the engine and the bytes to append to the value log: the
    /// records of the two sentinels for a fresh store, nothing otherwise.
    #[verifier::rlimit(50)]
    #[verifier::spinoff_prover]
    pub fn with_capacity_and_rate_at(
        dir: DirPath,
        size_unit: SizeUnit,
        capacity: usize,
        config: &Config,
        image: &StoreImage,
        created_at: u64,
    ) -> (r: Result<(Self, Vec<u8>), StorageEngineError>)
        requires
            capacity > 0,
            capacity * size_unit.factor() <= usize::MAX,
        ensures
            opens_as_owed(r, capacity * size_unit.factor(), *image),
            r matches Ok(opened) ==> is_opening(
                opened.0,
                opened.1@,
                dir,
                capacity * size_unit.factor(),
                *config,
                *image,
                created_at,
            ),
    {
        if image.vlog.len() == 0 {
            let opened = Self::start_fresh_at(dir, size_unit, capacity, config, created_at);
            return Ok(opened);
        }
        let mut buckets = BucketMap::new(dir.buckets.clone());
        let mut bloom_filters: Vec<BloomFilter> = Vec::new();
        let mut biggest_key_index = KeyRange::new();
        let mut head: (usize, u64) = (0, 0);
        let mut tail: (usize, u64) = (0, 0);
        let mut newest_in_tables: u64 = 0;
        let mut i: usize = 0;
        while i < image.tables.len()
            invariant
                i <= image.tables@.len(),
                image.vlog@.len() > 0,
                buckets.wf(),
                biggest_key_index.wf(),
                head == newest_sentinel(image.tables@.subrange(0, i as int), head_entry_key()),
                tail == newest_sentinel(image.tables@.subrange(0, i as int), tail_entry_key()),
                bloom_filters@.len() == i,
                forall|j: int| 0 <= j < i ==> recoverable(#[trigger] image.tables@[j]),
                forall|j: int|
                    0 <= j < i ==> (#[trigger] bloom_filters@[j]).wf() && bloom_filters@[j].sstable_path
                        is Some && tied_to_image(bloom_filters@[j], image.tables@[j]),
                forall|j: int|
                    0 <= j < i ==> bucket_holds(
                        buckets.buckets@,
                        bucket_id_in(#[trigger] image.tables@[j]),
                        image.tables@[j].files@[data_file_position(image.tables@[j])].path@,
                    ),
                forall|p: Seq<char>|
                    biggest_key_index@.dom().contains(p) ==> exists|j: int|
                        0 <= j < i && envelope_of_image(
                            #[trigger] biggest_key_index@[p],
                            #[trigger] image.tables@[j],
                        ),
            decreases image.tables.len() - i,
        {
            let found = match Self::recover_table(&image.tables[i], config.false_positive_rate) {
                Ok(found) => found,
                Err(e) => {
                    proof {
                        assert(!recoverable(image.tables@[i as int]));
                        assert forall|j: int| #[trigger]
                            is_first_unrecoverable(image.tables@, j) implies j == i by {
                            if j < i {
                                assert(recoverable(image.tables@[j]));
                            } else if j > i {
                                assert(recoverable(image.tables@[i as int]));
                            }
                        }
                    }
                    return Err(e);
                },
            };
            proof {
                let next = image.tables@.subrange(0, i + 1);
                assert(next.drop_last() =~= image.tables@.subrange(0, i as int));
                assert(next.last() == image.tables@[i as int]);
            }
            if found.newest > newest_in_tables {
                newest_in_tables = found.newest;
            }
            match found.head {
                Some((offset, at, _)) => {
                    if at > head.1 {
                        head = (offset, at);
                    }
                },
                None => {},
            }
            match found.tail {
                Some((offset, at, _)) => {
                    if at > tail.1 {
                        tail = (offset, at);
                    }
                },
                None => {},
            }
            let ghost buckets_before = buckets.buckets@;
            match buckets.position(found.bucket_id) {
                Some(at) => {
                    let mut bucket = Bucket {
                        id: found.bucket_id,
                        dir: String::new(),
                        avarage_size: 0,
                        sstables: Vec::new(),
                    };
                    let ghost before = buckets.buckets@;
                    std::mem::swap(&mut bucket, &mut buckets.buckets[at]);
                    bucket.add(found.table.clone());
                    buckets.buckets.set(at, bucket);
                    proof {
                        let after = buckets.buckets@;
                        assert forall|a: int, b: int|
                            0 <= a < after.len() && 0 <= b < after.len() && (
                            #[trigger] after[a]).id == (#[trigger] after[b]).id implies a == b by {
                            assert(after[a].id == before[a].id);
                            assert(after[b].id == before[b].id);
                        }
                        assert(after[at as int].id == found.bucket_id);
                        assert(after[at as int].sstables@.last() == found.table);
                        assert forall|b: int| 0 <= b < before.len() implies (#[trigger] after[b]).id
                            == before[b].id && after[b].sstables@.len() >= before[b].sstables@.len()
                            && forall|t: int|
                            0 <= t < before[b].sstables@.len() ==> after[b].sstables@[t]
                                == before[b].sstables@[t] by {
                            if b != at {
                                assert(after[b] == before[b]);
                            }
                        }
                    }
                },
                None => {
                    let mut sstables: Vec<Table> = Vec::new();
                    sstables.push(found.table.clone());
                    let bucket = Bucket::new_with_id_dir_average_and_sstables(
                        image.tables[i].bucket_dir.clone(),
                        found.bucket_id,
                        sstables,
                        0,
                    );
                    let ghost before = buckets.buckets@;
                    buckets.buckets.push(bucket);
                    proof {
                        let after = buckets.buckets@;
                        assert forall|a: int, b: int|
                            0 <= a < after.len() && 0 <= b < after.len() && (
                            #[trigger] after[a]).id == (#[trigger] after[b]).id implies a == b by {
                            if a < before.len() {
                                assert(after[a] == before[a]);
                            }
                            if b < before.len() {
                                assert(after[b] == before[b]);
                            }
                        }
                        let n = before.len() as int;
                        assert(after[n].id == found.bucket_id);
                        assert(after[n].sstables@.last() == found.table);
                        assert forall|b: int| 0 <= b < before.len() implies (#[trigger] after[b]).id
                            == before[b].id && after[b].sstables@.len() >= before[b].sstables@.len()
                            && forall|t: int|
                            0 <= t < before[b].sstables@.len() ==> after[b].sstables@[t]
                                == before[b].sstables@[t] by {
                            assert(after[b] == before[b]);
                        }
                    }
                },
            }
            proof {
                let after = buckets.buckets@;
                let here = image.tables@[i as int];
                let path = here.files@[data_file_position(here)].path@;
                assert(found.table.data_file_path@ == path);
                assert(bucket_holds(after, bucket_id_in(here), path)) by {
                    let b = choose|b: int| 0 <= b < after.len() && (#[trigger] after[b]).id
                        == found.bucket_id && after[b].sstables@.len() > 0 && after[b].sstables@.last()
                        == found.table;
                    let t = after[b].sstables@.len() - 1;
                    assert(after[b].sstables@[t].data_file_path@ == path);
                }
                assert forall|j: int| 0 <= j < i implies bucket_holds(
                    after,
                    bucket_id_in(#[trigger] image.tables@[j]),
                    image.tables@[j].files@[data_file_position(image.tables@[j])].path@,
                ) by {
                    let id = bucket_id_in(image.tables@[j]);
                    let p = image.tables@[j].files@[data_file_position(image.tables@[j])].path@;
                    let (b, t) = choose|b: int, t: int|
                        0 <= b < buckets_before.len() && 0 <= t < buckets_before[b].sstables@.len()
                            && (#[trigger] buckets_before[b]).id == id && (
                        #[trigger] buckets_before[b].sstables@[t]).data_file_path@ == p;
                    assert(after[b].id == id);
                    assert(after[b].sstables@[t] == buckets_before[b].sstables@[t]);
                }
            }
            let ghost ranges_before = biggest_key_index@;
            match found.envelope {
                Some((smallest, biggest)) => {
                    let _ = biggest_key_index.set(
                        found.table.get_data_file_path(),
                        smallest,
                        biggest,
                        found.table.clone(),
                    );
                },
                None => {},
            }
            proof {
                let here = image.tables@[i as int];
                assert forall|p: Seq<char>| biggest_key_index@.dom().contains(p) implies exists|
                    j: int,
                |
                    0 <= j < i + 1 && envelope_of_image(
                        #[trigger] biggest_key_index@[p],
                        #[trigger] image.tables@[j],
                    ) by {
                    if found.envelope is Some && p == found.table.data_file_path@ {
                        assert(envelope_of_image(biggest_key_index@[p], here));
                    } else {
                        assert(ranges_before.dom().contains(p));
                        let j = choose|j: int|
                            0 <= j < i && envelope_of_image(
                                #[trigger] ranges_before[p],
                                #[trigger] image.tables@[j],
                            );
                        assert(envelope_of_image(biggest_key_index@[p], image.tables@[j]));
                    }
                }
            }
            let ghost filters_before = bloom_filters@;
            bloom_filters.push(found.filter);
            proof {
                assert forall|j: int| 0 <= j < i + 1 implies (#[trigger] bloom_filters@[j]).wf()
                    && bloom_filters@[j].sstable_path is Some && tied_to_image(
                    bloom_filters@[j],
                    image.tables@[j],
                ) by {
                    if j < i {
                        assert(bloom_filters@[j] == filters_before[j]);
                    }
                }
            }
            i += 1;
        }
        assert(image.tables@.subrange(0, i as int) =~= image.tables@);
        assert(all_recoverable(image.tables@));
        assert(records_from(image.vlog@, head.0 as int) == replayed_on_opening(*image));
        let mut val_log = ValueLog::over(image.vlog.as_slice());
        val_log.set_head(head.0);
        val_log.set_tail(tail.0);
        let (active_memtable, read_only_memtables) = match Self::recover_memtable(
            size_unit,
            capacity,
            config.false_positive_rate,
            image.vlog.as_slice(),
            head.0,
        ) {
            Ok(tables) => tables,
            Err(e) => {
                return Err(StorageEngineError::MemTableRecoveryError(Box::new(e)));
            },
        };
        let mut last_write_stamp = newest_time(&active_memtable.entries(), newest_in_tables);
        let sealed_count = sealed_len(&read_only_memtables);
        let mut s: usize = 0;
        while s < sealed_count
            invariant
                s <= sealed_count,
                sealed_count == sealed_tables(read_only_memtables).len(),
                forall|k: Seq<u8>| #[trigger]
                    active_memtable@.dom().contains(k) ==> active_memtable@[k].1
                        <= last_write_stamp,
                forall|i: int, k: Seq<u8>|
                    0 <= i < s && #[trigger] sealed_tables(read_only_memtables)[i].1@.dom().contains(
                        k,
                    ) ==> sealed_tables(read_only_memtables)[i].1@[k].1 <= last_write_stamp,
            decreases sealed_count - s,
        {
            let (_, table) = sealed_get_index(&read_only_memtables, s);
            last_write_stamp = newest_time(&table.entries(), last_write_stamp);
            s += 1;
        }
        let engine = StorageEngine {
            dir,
            active_memtable,
            bloom_filters,
            val_log,
            buckets,
            biggest_key_index,
            config: *config,
            read_only_memtables,
            last_table_stamp: 0,
            last_write_stamp,
        };
        proof {
            assert(engine.sealed() == sealed_tables(engine.read_only_memtables));
            let replayed = records_from(image.vlog@, head.0 as int);
            assert forall|k: Seq<u8>|
                #[trigger] engine.first_in_tiers(k) == last_entry(
                    gone_through(replayed, replayed.len() as int),
                    k,
                ) by {
                assert(engine.first_in_tiers(k) == latest_held(
                    engine.active_memtable@,
                    engine.sealed(),
                    k,
                ));
            }
            if times_ascend(replayed) {
                assert forall|k: Seq<u8>| #[trigger]
                    engine.memtable_entry(k) == last_entry(
                        gone_through(replayed, replayed.len() as int),
                        k,
                    ) by {
                    assert(engine.memtable_entry(k) == held_for(
                        engine.active_memtable@,
                        engine.sealed(),
                        k,
                    ));
                }
            }
            if times_ascend(replayed) {
                assert(in_time_order(engine.active_memtable@, engine.sealed()));
                assert(engine.chronological());
            }
            assert(engine.wf());
            assert(engine.faithful());
            assert(engine.val_log.log@ == image.vlog@);
            assert(engine.val_log.head_offset == newest_sentinel(image.tables@, head_entry_key()).0);
            assert(engine.val_log.tail_offset == newest_sentinel(image.tables@, tail_entry_key()).0);
        }
        Ok((engine, Vec::new()))
    }

    /// Opens a store at the time the wall clock shows, given what is on disk.
    pub fn with_capacity_and_rate(
        dir: DirPath,
        size_unit: SizeUnit,
        capacity: usize,
        config: &Config,
        image: &StoreImage,
    ) -> (r: Result<(Self, Vec<u8>), StorageEngineError>)
        requires
            capacity > 0,
            capacity * size_unit.factor() <= usize::MAX,
        ensures
            opens_as_owed(r, capacity * size_unit.factor(), *image),
            r matches Ok(opened) ==> exists|created_at: u64| #[trigger]
                is_opening(
                    opened.0,
                    opened.1@,
                    dir,
                    capacity * size_unit.factor(),
                    *config,
                    *image,
                    created_at,
                ),
    {
        let created_at = now_millis();
        Self::with_capacity_and_rate_at(dir, size_unit, capacity, config, image, created_at)
    }

    /// Opens a store with the given capacity and configuration.
    pub fn with_default_capacity_and_config(
        dir: DirPath,
        size_unit: SizeUnit,
        capacity: usize,
        config: &Config,
        image: &StoreImage,
    ) -> (r: Result<(Self, Vec<u8>), StorageEngineError>)
        requires
            capacity > 0,
            capacity * size_unit.factor() <= usize::MAX,
        ensures
            opens_as_owed(r, capacity * size_unit.factor(), *image),
            r matches Ok(opened) ==> exists|created_at: u64| #[trigger]
                is_opening(
                    opened.0,
                    opened.1@,
                    dir,
                    capacity * size_unit.factor(),
                    *config,
                    *image,
                    created_at,
                ),
    {
        Self::with_capacity_and_rate(dir, size_unit, capacity, config, image)
    }

    /// Opens the store below `dir` with the default capacity and
    /// configuration, given what is on disk.
    pub fn new(dir: String, image: &StoreImage) -> (r: Result<(Self, Vec<u8>), StorageEngineError>)
        ensures
            opens_as_owed(r, WRITE_BUFFER_SIZE as int, *image),
            r matches Ok(opened) ==> is_layout(opened.0.dir, dir) && exists|created_at: u64| #[trigger]
                is_opening(
                    opened.0,
                    opened.1@,
                    opened.0.dir,
                    WRITE_BUFFER_SIZE as int,
                    crate::cfg::default_config(),
                    *image,
                    created_at,
                ),
    {
        let dir = DirPath::build(dir);
        let default_config = Config::default();
        Self::with_default_capacity_and_config(
            dir,
            SizeUnit::Bytes,
            WRITE_BUFFER_SIZE,
            &default_config,
            image,
        )
    }

    /// Opens the store below `dir` with the default capacity and the given
    /// configuration, given what is on disk.
    pub fn new_with_custom_config(dir: String, config: &Config, image: &StoreImage) -> (r: Result<
        (Self, Vec<u8>),
        StorageEngineError,
    >)
        ensures
            opens_as_owed(r, WRITE_BUFFER_SIZE as int, *image),
            r matches Ok(opened) ==> is_layout(opened.0.dir, dir) && exists|created_at: u64| #[trigger]
                is_opening(
                    opened.0,
                    opened.1@,
                    opened.0.dir,
                    WRITE_BUFFER_SIZE as int,
                    *config,
                    *image,
                    created_at,
                ),
    {
        let dir = DirPath::build(dir);
        Self::with_default_capacity_and_config(
            dir,
            SizeUnit::Bytes,
            WRITE_BUFFER_SIZE,
            config,
            image,
        )
    }

    /// Empties the store at the time `created_at`: forgets every memtable,
    /// bucket, filter and key envelope and the whole value log, and hands back
    /// a store that starts afresh in the same place with the same capacity and
    /// configuration, together with the bytes to write to the emptied value
    /// log.
    pub fn clear_at(&mut self, created_at: u64) -> (r: (Self, Vec<u8>))
        requires
            old(self).wf(),
        ensures
            final(self).wf(),
            final(self).faithful(),
            final(self).active_memtable@ == empty_index(),
            final(self).sealed() == no_tables(),
            final(self).bloom_filters@.len() == 0,
            final(self).buckets.buckets@.len() == 0,
            final(self).biggest_key_index.key_ranges@.len() == 0,
            final(self).val_log.log@ == Seq::<u8>::empty(),
            r.0.wf(),
            r.0.faithful(),
            r.1@ == fresh_log(created_at),
            r.0.val_log.log@ == fresh_log(created_at),
            r.0.val_log.tail_offset == 0,
            r.0.val_log.head_offset == FRESH_HEAD_OFFSET,
            r.0.active_memtable@ == empty_index().insert(
                tail_entry_key(),
                (0usize, created_at, false),
            ).insert(head_entry_key(), (FRESH_HEAD_OFFSET, created_at, false)),
            r.0.active_memtable.capacity == old(self).active_memtable.capacity,
            r.0.sealed() == no_tables(),
            r.0.bloom_filters@.len() == 0,
            r.0.buckets.buckets@.len() == 0,
            r.0.biggest_key_index.key_ranges@.len() == 0,
            r.0.dir == old(self).dir,
            r.0.config == old(self).config,
            is_fresh_start(r.0, r.1@, created_at),
    {
        let capacity = self.active_memtable.capacity();
        let size_unit = self.active_memtable.size_unit();
        self.active_memtable.clear();
        self.read_only_memtables = sealed_new();
        self.bloom_filters = Vec::new();
        self.biggest_key_index = KeyRange::new();
        self.buckets.clear_all();
        self.val_log.clear_all();
        let config = self.config;
        Self::start_fresh_at(self.dir.clone(), size_unit, capacity, &config, created_at)
    }

    /// Empties the store at the time the wall clock shows.
    pub fn clear(&mut self) -> (r: Result<(Self, Vec<u8>), StorageEngineError>)
        requires
            old(self).wf(),
        ensures
            r is Ok,
            final(self).wf(),
            final(self).active_memtable@ == empty_index(),
            final(self).sealed() == no_tables(),
            final(self).bloom_filters@.len() == 0,
            final(self).buckets.buckets@.len() == 0,
            final(self).biggest_key_index.key_ranges@.len() == 0,
            final(self).val_log.log@ == Seq::<u8>::empty(),
            r matches Ok(opened) ==> {
                &&& opened.0.wf()
                &&& opened.0.faithful()
                &&& opened.1@ == opened.0.val_log.log@
                &&& opened.0.val_log.head_offset == FRESH_HEAD_OFFSET
                &&& opened.0.val_log.tail_offset == 0
                &&& opened.0.active_memtable.capacity == old(self).active_memtable.capacity
                &&& opened.0.sealed() == no_tables()
                &&& opened.0.bloom_filters@.len() == 0
                &&& opened.0.buckets.buckets@.len() == 0
                &&& opened.0.biggest_key_index.key_ranges@.len() == 0
                &&& opened.0.dir == old(self).dir
                &&& opened.0.config == old(self).config
                &&& exists|created_at: u64| #[trigger] is_fresh_start(opened.0, opened.1@, created_at)
            },
    {
        let created_at = now_millis();
        Ok(self.clear_at(created_at))
    }

    /// What recovery learns from one sorted table as found on disk: the
    /// bucket it belongs to, its handle, a filter over its keys, the envelope
    /// of its keys, and the sentinel entries it carries.
    ///
    /// Of the two files the one whose path sorts first is the data file.
    pub fn recover_table(image: &TableImage, rate: FilterRate) -> (r: Result<
        RecoveredTable,
        StorageEngineError,
    >)
        ensures
            r is Ok <==> has_two_files(*image) && exists|id: Seq<u8>|
                is_bucket_id_of(encode_utf8(image.dir@), id) && uuid_parsed(id) is Some,
            r matches Err(e) ==> {
                &&& e is InvalidSSTableDirectoryError <==> !has_two_files(*image)
                &&& e is InvaidUUIDParseString <==> has_two_files(*image)
            },
            r matches Ok(found) ==> {
                let at = data_file_position(*image);
                let data = image.files@[at].bytes@;
                let items = items_from(data, 0);
                &&& found.bucket_id == bucket_id_in(*image)
                &&& found.table.dir == image.dir
                &&& found.table.data_file_path == image.files@[at].path
                &&& found.table.index_file_path == image.files@[1 - at].path
                &&& found.table.size == data.len()
                &&& found.table.hotness == 0
                &&& found.filter.wf()
                &&& found.filter.sstable_path == Some(found.table)
                &&& found.filter.no_of_hash_func == rate.no_of_hash_func
                &&& forall|i: int|
                    0 <= i < items.len() ==> found.filter.may_contain((#[trigger] items[i]).key)
                &&& found.envelope is Some <==> items.len() > 0
                &&& found.envelope matches Some((smallest, biggest)) ==> forall|i: int|
                    0 <= i < items.len() ==> key_le(smallest@, (#[trigger] items[i]).key)
                        && key_le(items[i].key, biggest@)
                &&& found.head == first_value_for(items, head_entry_key())
                &&& found.tail == first_value_for(items, tail_entry_key())
                &&& forall|i: int|
                    0 <= i < items.len() ==> (#[trigger] items[i]).created_at <= found.newest
            },
    {
        if image.files.len() != 2 {
            return Err(
                StorageEngineError::InvalidSSTableDirectoryError { input_string: image.dir.clone() },
            );
        }
        let first_sorts_first = match key_order(
            image.files[0].path.as_str().as_bytes(),
            image.files[1].path.as_str().as_bytes(),
        ) {
            KeyOrder::Less => true,
            KeyOrder::Greater => false,
            KeyOrder::Equal => {
                return Err(
                    StorageEngineError::InvalidSSTableDirectoryError {
                        input_string: image.dir.clone(),
                    },
                );
            },
        };
        let (data_file, index_file) = if first_sorts_first {
            (&image.files[0], &image.files[1])
        } else {
            (&image.files[1], &image.files[0])
        };
        let id_text = Self::get_bucket_id_from_full_bucket_path(image.dir.as_str());
        let bucket_id = match parse_uuid(id_text.as_slice()) {
            Ok(id) => id,
            Err(error) => {
                proof {
                    lemma_bucket_id_unique(encode_utf8(image.dir@), id_text@);
                }
                return Err(
                    StorageEngineError::InvaidUUIDParseString {
                        input_string: image.dir.clone(),
                        error,
                    },
                );
            },
        };
        proof {
            lemma_bucket_id_unique(encode_utf8(image.dir@), id_text@);
        }
        let entries = SSTable::read_all(data_file.bytes.as_slice());
        let ghost items = items_of(entries@);
        let table = Table {
            dir: image.dir.clone(),
            data_file_path: data_file.path.clone(),
            index_file_path: index_file.path.clone(),
            hotness: 0,
            size: data_file.bytes.len() as u64,
        };
        let mut filter = build_bloomfilter_from_sstable(&entries, rate);
        filter.set_sstable_path(table.clone());
        let envelope = key_envelope(&entries);
        let head = SSTable::get_value_from_index(&entries, head_key().as_slice());
        let tail = SSTable::get_value_from_index(&entries, tail_key().as_slice());
        let newest = newest_time(&entries, 0);
        proof {
            assert forall|i: int| 0 <= i < items.len() implies filter.may_contain(
                (#[trigger] items[i]).key,
            ) by {
                assert(items[i].key == entries@[i].key@);
            }
            if envelope is Some {
                let pair = envelope->0;
                let smallest = pair.0;
                let biggest = pair.1;
                assert forall|i: int| 0 <= i < items.len() implies key_le(
                    smallest@,
                    (#[trigger] items[i]).key,
                ) && key_le(items[i].key, biggest@) by {
                    assert(items[i].key == entries@[i].key@);
                }
            }
            lemma_first_value_for(entries@, head_entry_key(), head);
            lemma_first_value_for(entries@, tail_entry_key(), tail);
            assert forall|i: int| 0 <= i < items.len() implies (#[trigger] items[i]).created_at
                <= newest by {
                assert(items[i].created_at == entries@[i].created_at);
            }
        }
        Ok(RecoveredTable { bucket_id, table, filter, envelope, head, tail, newest })
    }
}

/// A path carries one bucket identifier.
pub proof fn lemma_bucket_id_unique(path: Seq<u8>, id: Seq<u8>)
    requires
        is_bucket_id_of(path, id),
    ensures
        forall|other: Seq<u8>| is_bucket_id_of(path, other) ==> other == id,
{
    assert forall|other: Seq<u8>| is_bucket_id_of(path, other) implies other == id by {
        if exists|at: int| occurs_at(path, bucket_word(), at) {
            let a = choose|at: int| #[trigger]
                is_last_occurrence(path, bucket_word(), at) && {
                    let rest = path.subrange(at + 6, path.len() as int);
                    if exists|end: int| is_first_index(rest, PATH_SEPARATOR, end) {
                        exists|end: int| #[trigger]
                            is_first_index(rest, PATH_SEPARATOR, end) && id == rest.subrange(0, end)
                    } else {
                        id == Seq::<u8>::empty()
                    }
                };
            let b = choose|at: int| #[trigger]
                is_last_occurrence(path, bucket_word(), at) && {
                    let rest = path.subrange(at + 6, path.len() as int);
                    if exists|end: int| is_first_index(rest, PATH_SEPARATOR, end) {
                        exists|end: int| #[trigger]
                            is_first_index(rest, PATH_SEPARATOR, end) && other == rest.subrange(
                                0,
                                end,
                            )
                    } else {
                        other == Seq::<u8>::empty()
                    }
                };
            assert(a == b) by {
                if a < b {
                    assert(!occurs_at(path, bucket_word(), b));
                } else if b < a {
                    assert(!occurs_at(path, bucket_word(), a));
                }
            }
            let rest = path.subrange(a + 6, path.len() as int);
            if exists|end: int| is_first_index(rest, PATH_SEPARATOR, end) {
                let e1 = choose|end: int| #[trigger]
                    is_first_index(rest, PATH_SEPARATOR, end) && id == rest.subrange(0, end);
                let e2 = choose|end: int| #[trigger]
                    is_first_index(rest, PATH_SEPARATOR, end) && other == rest.subrange(0, end);
                assert(e1 == e2) by {
                    if e1 < e2 {
                        assert(rest[e1] != PATH_SEPARATOR);
                    } else if e2 < e1 {
                        assert(rest[e2] != PATH_SEPARATOR);
                    }
                }
            }
        }
    }
}

/// The first entry found for a key by position is the first entry found by
/// walking the entries from the front.
pub proof fn lemma_first_value_for(
    entries: Seq<Entry<Vec<u8>, usize>>,
    key: Seq<u8>,
    found: Option<IndexValue>,
)
    requires
        found is Some <==> exists|i: int|
            0 <= i < entries.len() && (#[trigger] entries[i]).key@ == key,
        found matches Some(v) ==> exists|i: int|
            0 <= i < entries.len() && (#[trigger] entries[i]).key@ == key && v == (
                entries[i].val_offset,
                entries[i].created_at,
                entries[i].is_tombstone,
            ) && forall|j: int| 0 <= j < i ==> (#[trigger] entries[j]).key@ != key,
    ensures
        found == first_value_for(items_of(entries), key),
    decreases entries.len(),
{
    let items = items_of(entries);
    if entries.len() > 0 {
        assert(items[0].key == entries[0].key@);
        if entries[0].key@ != key {
            let rest = entries.drop_first();
            assert(items_of(rest) =~= items.drop_first());
            if found is Some {
                let v = found->0;
                let i = choose|i: int|
                    0 <= i < entries.len() && (#[trigger] entries[i]).key@ == key && v == (
                        entries[i].val_offset,
                        entries[i].created_at,
                        entries[i].is_tombstone,
                    ) && forall|j: int| 0 <= j < i ==> (#[trigger] entries[j]).key@ != key;
                assert(rest[i - 1] == entries[i]);
                assert forall|j: int| 0 <= j < i - 1 implies (#[trigger] rest[j]).key@ != key by {
                    assert(rest[j] == entries[j + 1]);
                }
            } else {
                assert forall|i: int| 0 <= i < rest.len() implies (#[trigger] rest[i]).key@
                    != key by {
                    assert(rest[i] == entries[i + 1]);
                }
            }
            lemma_first_value_for(rest, key, found);
        } else {
            if found is Some {
                let v = found->0;
                let i = choose|i: int|
                    0 <= i < entries.len() && (#[trigger] entries[i]).key@ == key && v == (
                        entries[i].val_offset,
                        entries[i].created_at,
                        entries[i].is_tombstone,
                    ) && forall|j: int| 0 <= j < i ==> (#[trigger] entries[j]).key@ != key;
                assert(i == 0);
            }
        }
    }
}

/// Entries that point to their records in a log point to them in every
/// extension of the log.
pub proof fn lemma_points_into_extend(m: Map<Seq<u8>, IndexValue>, log: Seq<u8>, more: Seq<u8>)
    requires
        points_into(m, log),
    ensures
        points_into(m, log + more),
{
    assert forall|k: Seq<u8>| #[trigger] m.dom().contains(k) && !is_reserved(k) implies matches_record(
        k,
        m[k],
        log + more,
    ) by {
        assert(matches_record(k, m[k], log));
        crate::value_log::lemma_record_at_stable(log, more, m[k].0 as int);
    }
}

/// What memtables hold for `key`: the entry of the active memtable, or else
/// the newest entry of the sealed ones.
pub open spec fn held_for(
    active: Map<Seq<u8>, IndexValue>,
    sealed: Seq<(Seq<u8>, InMemoryTable)>,
    key: Seq<u8>,
) -> Option<IndexValue> {
    if active.dom().contains(key) {
        Some(active[key])
    } else {
        newest_hit(sealed, key)
    }
}

/// Creation times agree with the order of the memtables, for every key.
pub open spec fn in_time_order(
    active: Map<Seq<u8>, IndexValue>,
    sealed: Seq<(Seq<u8>, InMemoryTable)>,
) -> bool {
    &&& forall|i: int, j: int, k: Seq<u8>|
        0 <= i < j < sealed.len() && #[trigger] sealed[i].1@.dom().contains(k)
            && #[trigger] sealed[j].1@.dom().contains(k) ==> sealed[i].1@[k].1 <= sealed[j].1@[k].1
    &&& forall|i: int, k: Seq<u8>|
        0 <= i < sealed.len() && #[trigger] sealed[i].1@.dom().contains(k) && active.dom().contains(
            k,
        ) ==> sealed[i].1@[k].1 <= active[k].1
}

/// Every entry of `m` has the key and the creation time of one of the records
/// `replayed[1]` to `replayed[done - 1]`.
pub open spec fn from_records(
    m: Map<Seq<u8>, IndexValue>,
    replayed: Seq<(int, Record)>,
    done: int,
) -> bool {
    forall|k: Seq<u8>| #[trigger]
        m.dom().contains(k) ==> exists|n: int|
            1 <= n < done && n < replayed.len() && (#[trigger] replayed[n]).1.key == k
                && replayed[n].1.created_at == m[k].1
}

/// The records that a replay has gone through after `done` steps: all of the
/// first `done` but the very first.
pub open spec fn gone_through(replayed: Seq<(int, Record)>, done: int) -> Seq<(int, Record)> {
    if done <= 1 {
        Seq::empty()
    } else {
        replayed.subrange(1, done)
    }
}

/// Sealing the active memtable changes nothing in what the memtables hold,
/// where creation times agree with the order of the memtables.
pub proof fn lemma_seal_keeps_held(
    active: InMemoryTable,
    sealed: Seq<(Seq<u8>, InMemoryTable)>,
    id: Seq<u8>,
    key: Seq<u8>,
)
    requires
        in_time_order(active@, sealed),
    ensures
        held_for(empty_index(), sealed.push((id, active)), key) == held_for(active@, sealed, key),
        in_time_order(empty_index(), sealed.push((id, active))),
{
    let after = sealed.push((id, active));
    let n = sealed.len() as int;
    assert(after.drop_last() =~= sealed);
    assert(after[n] == after.last());
    if active@.dom().contains(key) {
        lemma_newest_hit_is_entry(sealed, key);
        match newest_hit(sealed, key) {
            None => {},
            Some(o) => {
                let i = choose|i: int|
                    0 <= i < sealed.len() && #[trigger] sealed[i].1@.dom().contains(key)
                        && sealed[i].1@[key] == o;
                assert(o.1 <= active@[key].1);
            },
        }
    }
    assert forall|i: int, j: int, k: Seq<u8>|
        0 <= i < j < after.len() && #[trigger] after[i].1@.dom().contains(k)
            && #[trigger] after[j].1@.dom().contains(k) implies after[i].1@[k].1
        <= after[j].1@[k].1 by {
        assert(after[i] == sealed[i]);
        assert(sealed[i].1@.dom().contains(k));
        if j < n {
            assert(after[j] == sealed[j]);
            assert(sealed[j].1@.dom().contains(k));
        }
    }
}

/// Storing the entry of a record in the active memtable makes it what the
/// memtables hold for the record's key, and changes nothing for other keys.
pub proof fn lemma_insert_updates_held(
    active: Map<Seq<u8>, IndexValue>,
    sealed: Seq<(Seq<u8>, InMemoryTable)>,
    seen: Seq<(int, Record)>,
    offset: usize,
    rec: Record,
    key: Seq<u8>,
)
    requires
        held_for(active, sealed, key) == last_entry(seen, key),
    ensures
        held_for(
            active.insert(rec.key, (offset, rec.created_at, rec.is_tombstone)),
            sealed,
            key,
        ) == last_entry(seen.push((offset as int, rec)), key),
{
    let longer = seen.push((offset as int, rec));
    assert(longer.drop_last() =~= seen);
}

/// Whether the replay of an entry with a key of `key_len` bytes goes through:
/// where the active memtable is full for it, `table_id` must be free among
/// the sealed memtables; and the byte count of the memtable that takes the
/// entry must stay in the range of `usize`.
pub open spec fn can_replay(
    active: InMemoryTable,
    sealed: Seq<(Seq<u8>, InMemoryTable)>,
    key_len: usize,
    table_id: Seq<u8>,
) -> bool {
    &&& !active.full_for(key_len) || !has_id(sealed, table_id)
    &&& if active.full_for(key_len) {
        key_len + ENTRY_OVERHEAD <= usize::MAX
    } else {
        active.size + key_len + ENTRY_OVERHEAD <= usize::MAX
    }
}

/// The memtable that `active` is once it is sealed.
pub open spec fn sealed_form(active: InMemoryTable) -> InMemoryTable {
    InMemoryTable { read_only: true, ..active }
}

/// Whether `after` and `queue` are the memtables that come of `before` and
/// `sealed` by the replay of `entry`: where `before` was full for the entry,
/// it went read-only to the end of the queue under `table_id`, and an empty
/// memtable with its settings took the entry; else `before` took it.
pub open spec fn is_replay_of(
    after: InMemoryTable,
    queue: Seq<(Seq<u8>, InMemoryTable)>,
    before: InMemoryTable,
    sealed: Seq<(Seq<u8>, InMemoryTable)>,
    entry: Entry<Vec<u8>, usize>,
    table_id: Seq<u8>,
) -> bool {
    let cost = entry.key@.len() + ENTRY_OVERHEAD;
    &&& after.wf()
    &&& !after.read_only
    &&& after.capacity == before.capacity
    &&& after.false_positive_rate == before.false_positive_rate
    &&& before.full_for(entry.key@.len() as usize) ==> {
        &&& queue == sealed.push((table_id, sealed_form(before)))
        &&& after.size_unit == SizeUnit::Bytes
        &&& after@ == empty_index().insert(entry.key@, value_of_entry(entry))
        &&& after.size == cost
    }
    &&& !before.full_for(entry.key@.len() as usize) ==> {
        &&& queue == sealed
        &&& after.size_unit == before.size_unit
        &&& after@ == before@.insert(entry.key@, value_of_entry(entry))
        &&& after.size == before.size + cost
    }
}

/// The bytes that the records `replayed[1]` to `replayed[done - 1]` count for
/// in a memtable.
pub open spec fn replayed_bytes(replayed: Seq<(int, Record)>, done: int) -> int
    decreases done,
{
    if done <= 1 {
        0
    } else {
        replayed_bytes(replayed, done - 1) + replayed[done - 1].1.key.len() + ENTRY_OVERHEAD
    }
}

/// Whether the replay of `replayed` into a memtable of `capacity` bytes seals
/// no memtable: all the records but the first stay below the capacity.
pub open spec fn seals_nothing(replayed: Seq<(int, Record)>, capacity: int) -> bool {
    replayed_bytes(replayed, replayed.len() as int) < capacity
}

/// The bytes that a replay counts never go down as it goes on.
pub proof fn lemma_replayed_bytes_grow(replayed: Seq<(int, Record)>, a: int, b: int)
    requires
        a <= b,
    ensures
        0 <= replayed_bytes(replayed, a) <= replayed_bytes(replayed, b),
    decreases b - a,
{
    lemma_replayed_bytes_positive(replayed, a);
    if a < b {
        lemma_replayed_bytes_grow(replayed, a, b - 1);
    }
}

/// A replay counts no negative number of bytes.
pub proof fn lemma_replayed_bytes_positive(replayed: Seq<(int, Record)>, done: int)
    ensures
        0 <= replayed_bytes(replayed, done),
    decreases done,
{
    if done > 1 {
        lemma_replayed_bytes_positive(replayed, done - 1);
    }
}

/// What the tiers of memtables hold for `key`, going from the newest tier to
/// the oldest: the entry of the active memtable, or else the entry of the
/// memtable sealed last among those that hold the key.
pub open spec fn latest_held(
    active: Map<Seq<u8>, IndexValue>,
    sealed: Seq<(Seq<u8>, InMemoryTable)>,
    key: Seq<u8>,
) -> Option<IndexValue> {
    if active.dom().contains(key) {
        Some(active[key])
    } else {
        latest_hit(sealed, key)
    }
}

/// Sealing the active memtable changes nothing in what the tiers hold.
pub proof fn lemma_seal_keeps_tiers(
    active: InMemoryTable,
    sealed: Seq<(Seq<u8>, InMemoryTable)>,
    id: Seq<u8>,
    key: Seq<u8>,
)
    ensures
        latest_held(empty_index(), sealed.push((id, active)), key) == latest_held(
            active@,
            sealed,
            key,
        ),
{
    let after = sealed.push((id, active));
    assert(after.drop_last() =~= sealed);
    assert(after.last() == (id, active));
}

/// An entry stored in the active memtable for a record is what the tiers hold
/// for the record's key from then on, and nothing changes for any other key.
pub proof fn lemma_insert_updates_tiers(
    active: Map<Seq<u8>, IndexValue>,
    sealed: Seq<(Seq<u8>, InMemoryTable)>,
    seen: Seq<(int, Record)>,
    offset: usize,
    rec: Record,
    key: Seq<u8>,
)
    requires
        latest_held(active, sealed, key) == last_entry(seen, key),
    ensures
        latest_held(
            active.insert(rec.key, (offset, rec.created_at, rec.is_tombstone)),
            sealed,
            key,
        ) == last_entry(seen.push((offset as int, rec)), key),
{
    let longer = seen.push((offset as int, rec));
    assert(longer.drop_last() =~= seen);
}

/// Whether `active` and `sealed` are memtables that a replay of the first
/// `done` of the records `replayed` of `vlog` has built: every entry points
/// to its record and has the key and the creation time of a record that was
/// replayed, the sealed memtables are read-only, and every key that was
/// replayed is in a memtable. For every key the newest tier that holds it
/// holds the entry of the key's last record. Where the creation times of the
/// records ascend, that entry is also the one created last, and creation
/// times agree with the order of the memtables.
pub open spec fn is_replayed_state(
    active: InMemoryTable,
    sealed: Seq<(Seq<u8>, InMemoryTable)>,
    vlog: Seq<u8>,
    replayed: Seq<(int, Record)>,
    done: int,
) -> bool {
    &&& points_into(active@, vlog)
    &&& from_records(active@, replayed, done)
    &&& forall|i: int|
        0 <= i < sealed.len() ==> {
            &&& (#[trigger] sealed[i]).1.wf()
            &&& sealed[i].1.read_only
            &&& points_into(sealed[i].1@, vlog)
            &&& from_records(sealed[i].1@, replayed, done)
        }
    &&& forall|n: int| 1 <= n < done ==> key_known(active, sealed, (#[trigger] replayed[n]).1.key)
    &&& forall|k: Seq<u8>|
        #[trigger] latest_held(active@, sealed, k) == last_entry(gone_through(replayed, done), k)
    &&& times_ascend(replayed) ==> in_time_order(active@, sealed)
    &&& times_ascend(replayed) ==> forall|k: Seq<u8>|
        #[trigger] held_for(active@, sealed, k) == last_entry(gone_through(replayed, done), k)
}

/// The replay of one more record keeps the memtables in step with the
/// records that were replayed.
pub proof fn lemma_replay_keeps_track(
    start: InMemoryTable,
    before: Seq<(Seq<u8>, InMemoryTable)>,
    active: InMemoryTable,
    tables: Seq<(Seq<u8>, InMemoryTable)>,
    stored: Entry<Vec<u8>, usize>,
    table_id: Seq<u8>,
    vlog: Seq<u8>,
    replayed: Seq<(int, Record)>,
    done: int,
    rec: Record,
)
    requires
        start.wf(),
        is_replayed_state(start, before, vlog, replayed, done),
        is_replay_of(active, tables, start, before, stored, table_id),
        1 <= done < replayed.len(),
        replayed[done] == (stored.val_offset as int, rec),
        record_at(vlog, stored.val_offset as int) == Some(rec),
        stored.key@ == rec.key,
        stored.created_at == rec.created_at,
        stored.is_tombstone == rec.is_tombstone,
    ensures
        is_replayed_state(active, tables, vlog, replayed, done + 1),
{
    let at = stored.val_offset;
    let was_full = start.full_for(rec.key.len() as usize);
    let full = sealed_form(start);
    let mid = if was_full {
        empty_index()
    } else {
        start@
    };
    assert(active@ == mid.insert(rec.key, value_of_entry(stored)));
    if was_full {
        assert(tables == before.push((table_id, full)));
        assert(full@ == start@);
        assert forall|i: int| 0 <= i < tables.len() implies (
        #[trigger] tables[i]).1.wf() && tables[i].1.read_only
            && points_into(tables[i].1@, vlog) && from_records(
            tables[i].1@,
            replayed,
            done,
        ) by {
            if i < before.len() {
                assert(tables[i] == before[i]);
            }
        }
        if times_ascend(replayed) {
            assert forall|k: Seq<u8>|
                #[trigger] held_for(mid, tables, k) == last_entry(
                    gone_through(replayed, done),
                    k,
                ) by {
                lemma_seal_keeps_held(full, before, table_id, k);
                assert(held_for(full@, before, k) == last_entry(
                    gone_through(replayed, done),
                    k,
                ));
            }
            lemma_seal_keeps_held(full, before, table_id, Seq::empty());
        }
    }
    assert forall|k: Seq<u8>|
        #[trigger] latest_held(mid, tables, k) == last_entry(gone_through(replayed, done), k) by {
        if was_full {
            lemma_seal_keeps_tiers(full, before, table_id, k);
        }
        assert(latest_held(start@, before, k) == last_entry(gone_through(replayed, done), k));
    }
    assert(gone_through(replayed, done + 1) =~= gone_through(replayed, done).push(
        (at as int, rec),
    ));
    assert forall|k: Seq<u8>|
        #[trigger] latest_held(active@, tables, k) == last_entry(
            gone_through(replayed, done + 1),
            k,
        ) by {
        assert(latest_held(mid, tables, k) == last_entry(gone_through(replayed, done), k));
        lemma_insert_updates_tiers(mid, tables, gone_through(replayed, done), at, rec, k);
    }
    assert(points_into(mid, vlog));
    assert(from_records(mid, replayed, done));
    assert(times_ascend(replayed) ==> in_time_order(mid, tables));
    assert forall|n: int| 1 <= n < done implies mid.dom().contains(
        (#[trigger] replayed[n]).1.key,
    ) || exists|i: int|
        0 <= i < tables.len() && (#[trigger] tables[i]).1@.dom().contains(
            replayed[n].1.key,
        ) by {
        let k = replayed[n].1.key;
        assert(key_known(start, before, k));
        if start@.dom().contains(k) {
            if was_full {
                assert(tables[before.len() as int].1@.dom().contains(k));
            }
        } else {
            let i = choose|i: int|
                0 <= i < before.len() && (
                #[trigger] before[i]).1@.dom().contains(k);
            assert(tables[i] == before[i]);
        }
    }
    assert(matches_record(rec.key, value_of_entry(stored), vlog));
    assert forall|k: Seq<u8>| #[trigger]
        active@.dom().contains(k) && !is_reserved(k) implies matches_record(
        k,
        active@[k],
        vlog,
    ) by {
        if k != rec.key {
            assert(mid.dom().contains(k));
        }
    }
    assert forall|n: int| 1 <= n < done + 1 implies key_known(
        active,
        tables,
        (#[trigger] replayed[n]).1.key,
    ) by {
        let k = replayed[n].1.key;
        if n < done {
            if mid.dom().contains(k) {
                assert(active@.dom().contains(k));
            }
        }
    }
    assert(done >= 1);
    assert(replayed[done] == (at as int, rec));
    assert forall|k: Seq<u8>| #[trigger]
        active@.dom().contains(k) implies exists|n: int|
        1 <= n < done + 1 && n < replayed.len() && (
        #[trigger] replayed[n]).1.key == k && replayed[n].1.created_at
            == active@[k].1 by {
        if k == rec.key {
            assert(replayed[done].1.key == k);
        } else {
            assert(mid.dom().contains(k));
            let n = choose|n: int|
                1 <= n < done && n < replayed.len() && (
                #[trigger] replayed[n]).1.key == k
                    && replayed[n].1.created_at == mid[k].1;
            assert(replayed[n].1.key == k);
        }
    }
    assert forall|i: int| 0 <= i < tables.len() implies from_records(
        (#[trigger] tables[i]).1@,
        replayed,
        done + 1,
    ) by {
        let m = tables[i].1@;
        assert(from_records(m, replayed, done));
        assert forall|k: Seq<u8>| #[trigger] m.dom().contains(k) implies exists|
            n: int,
        |
            1 <= n < done + 1 && n < replayed.len() && (
            #[trigger] replayed[n]).1.key == k && replayed[n].1.created_at
                == m[k].1 by {
            let n = choose|n: int|
                1 <= n < done && n < replayed.len() && (
                #[trigger] replayed[n]).1.key == k
                    && replayed[n].1.created_at == m[k].1;
            assert(replayed[n].1.key == k);
        }
    }
    if times_ascend(replayed) {
        let seen = gone_through(replayed, done);
        assert(gone_through(replayed, done + 1) =~= seen.push(
            (at as int, rec),
        ));
        assert forall|k: Seq<u8>|
            #[trigger] held_for(active@, tables, k) == last_entry(
                gone_through(replayed, done + 1),
                k,
            ) by {
            assert(held_for(mid, tables, k) == last_entry(seen, k));
            lemma_insert_updates_held(mid, tables, seen, at, rec, k);
        }
        assert forall|i: int, k: Seq<u8>|
            0 <= i < tables.len() && #[trigger] tables[i].1@.dom().contains(
                k,
            ) && active@.dom().contains(k) implies tables[i].1@[k].1
            <= active@[k].1 by {
            if k == rec.key {
                assert(from_records(tables[i].1@, replayed, done));
                let n = choose|n: int|
                    1 <= n < done && n < replayed.len() && (
                    #[trigger] replayed[n]).1.key == k
                        && replayed[n].1.created_at == tables[i].1@[k].1;
                assert(replayed[n].1.key == replayed[done].1.key);
            } else {
                assert(mid.dom().contains(k));
            }
        }
    }
}

/// A fresh value log is made of two whole records, and behind its first
/// record it holds no record of a key that is not the engine's own.
pub proof fn lemma_fresh_log_mirrored(created_at: u64)
    ensures
        crate::value_log::is_whole_from(fresh_log(created_at), 0),
        records_from(fresh_log(created_at), 0).len() == 2,
        records_from(fresh_log(created_at), 0)[0].1 == sentinel_record(tail_entry_key(), created_at),
        records_from(fresh_log(created_at), 0)[1].1 == sentinel_record(head_entry_key(), created_at),
        forall|k: Seq<u8>|
            !is_reserved(k) ==> last_entry(
                gone_through(records_from(fresh_log(created_at), 0), 2),
                k,
            ) is None,
{
    let tail = sentinel_record(tail_entry_key(), created_at);
    let head = sentinel_record(head_entry_key(), created_at);
    let none = Seq::<u8>::empty();
    assert(record_at(none, 0) is None);
    assert(crate::value_log::parse_end(none, 0) == 0);
    assert(records_from(none, 0) =~= Seq::empty());
    crate::value_log::lemma_append_record(none, 0, tail);
    assert(none + record_bytes(tail) =~= record_bytes(tail));
    crate::value_log::lemma_append_record(record_bytes(tail), 0, head);
    let records = records_from(fresh_log(created_at), 0);
    assert(records.len() == 2);
    let seen = gone_through(records, 2);
    assert(seen =~= seq![records[1]]);
    assert(seen.drop_last() =~= Seq::empty());
    assert(records[1].1 == head);
    assert(is_reserved(head_entry_key()));
    assert forall|k: Seq<u8>| !is_reserved(k) implies last_entry(seen, k) is None by {
        assert(seen.last().1.key != k);
        assert(last_entry(seen.drop_last(), k) is None);
    }
}

} // verus!
