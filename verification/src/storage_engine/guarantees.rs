//! What the engine guarantees across calls, proved from the contracts of its
//! functions.

use crate::bloom_filter::{filters_of, is_listed, tables_admitting, BloomFilter};
use crate::cfg::Config;
use crate::compaction::bucket::is_image_of;
use crate::compaction::merge::{
    all_ascending, by_key, has_key, lemma_item_for_unique, lemma_merged_all_newest, merged_all,
    standing, survives, Expiry,
};
use crate::consts::{head_entry_key, is_reserved};
use crate::key_range::range::{has_path, position_of, reaches, tables_reaching, Range};
use crate::keys::{key_le, key_lt};
use crate::memtable::index::{lists_in_order, IndexValue};
use crate::memtable::inmemory::InMemoryTable;
use crate::sparse_index::{lemma_index_round_trip, marks_from};
use crate::sstable::sst::{
    data_of, item_encodable, item_value, items_from, items_of, lemma_data_round_trip,
    lemma_items_from_encodable, lemma_marks_ascending, lemma_table_lookup, mark_for,
    sparse_marks, strictly_ascending, Item, SstFiles,
};
use crate::sstable::table::Table;
use crate::storage_engine::compactor::{
    expiry_of, inputs_of, is_compaction_of, is_filter_over, CompactionOutcome,
};
use crate::storage_engine::recovery::{
    gone_through, is_opening, matches_record, points_into, StoreImage,
};
use crate::storage_engine::storage::{
    effective_interval, found_in_table, is_envelope, is_filter_of, latest_hit, newest_hit,
    DirPath, FlushedTable, Reading, StorageEngine,
};
use crate::value_log::{
    last_entry, lemma_append_record, lemma_record_at_stable, record_at, record_bytes, records_from,
    times_ascend, Record,
};
use vstd::prelude::*;

verus! {

/// Where creation times agree with the order in which memtables were sealed,
/// the newest entry for a key is the entry of the memtable sealed last among
/// those that hold the key, and no memtable of the queue holds an entry for
/// the key that was created later.
pub proof fn lemma_newest_hit_is_latest(tables: Seq<(Seq<u8>, InMemoryTable)>, key: Seq<u8>)
    requires
        forall|i: int, j: int|
            0 <= i < j < tables.len() && #[trigger] tables[i].1@.dom().contains(key)
                && #[trigger] tables[j].1@.dom().contains(key) ==> tables[i].1@[key].1
                <= tables[j].1@[key].1,
    ensures
        newest_hit(tables, key) == latest_hit(tables, key),
        latest_hit(tables, key) matches Some(found) ==> forall|i: int|
            0 <= i < tables.len() && #[trigger] tables[i].1@.dom().contains(key)
                ==> tables[i].1@[key].1 <= found.1,
    decreases tables.len(),
{
    if tables.len() > 0 {
        let earlier = tables.drop_last();
        let n = tables.len() - 1;
        assert forall|i: int, j: int|
            0 <= i < j < earlier.len() && #[trigger] earlier[i].1@.dom().contains(key)
                && #[trigger] earlier[j].1@.dom().contains(key) implies earlier[i].1@[key].1
            <= earlier[j].1@[key].1 by {
            assert(tables[i] == earlier[i]);
            assert(tables[j] == earlier[j]);
            assert(tables[i].1@.dom().contains(key));
            assert(tables[j].1@.dom().contains(key));
        }
        lemma_newest_hit_is_latest(earlier, key);
        lemma_newest_hit_is_entry(earlier, key);
        if tables[n].1@.dom().contains(key) {
            let here = tables[n].1@[key];
            match newest_hit(earlier, key) {
                Some(o) => {
                    let i = choose|i: int|
                        0 <= i < earlier.len() && #[trigger] earlier[i].1@.dom().contains(key)
                            && earlier[i].1@[key] == o;
                    assert(tables[i] == earlier[i]);
                    assert(tables[i].1@.dom().contains(key));
                    assert(o.1 <= here.1);
                },
                None => {},
            }
            assert forall|i: int|
                0 <= i < tables.len() && #[trigger] tables[i].1@.dom().contains(key)
                    implies tables[i].1@[key].1 <= here.1 by {
                if i < n {
                    assert(tables[n].1@.dom().contains(key));
                }
            }
        } else {
            let found = latest_hit(tables, key)->0;
            assert forall|i: int|
                0 <= i < tables.len() && #[trigger] tables[i].1@.dom().contains(key)
                    implies tables[i].1@[key].1 <= found.1 by {
                assert(i < n);
                assert(tables[i] == earlier[i]);
                assert(earlier[i].1@.dom().contains(key));
            }
        }
    }
}

/// The newest entry found for a key in a queue of memtables is the entry of
/// one of them.
pub proof fn lemma_newest_hit_is_entry(tables: Seq<(Seq<u8>, InMemoryTable)>, key: Seq<u8>)
    ensures
        newest_hit(tables, key) matches Some(found) ==> exists|i: int|
            0 <= i < tables.len() && #[trigger] tables[i].1@.dom().contains(key) && tables[i].1@[key]
                == found,
        newest_hit(tables, key) is None ==> forall|i: int|
            0 <= i < tables.len() ==> !#[trigger] tables[i].1@.dom().contains(key),
    decreases tables.len(),
{
    if tables.len() > 0 {
        let earlier = tables.drop_last();
        lemma_newest_hit_is_entry(earlier, key);
        let n = tables.len() - 1;
        match newest_hit(tables, key) {
            Some(found) => {
                if tables[n].1@.dom().contains(key) && tables[n].1@[key] == found {
                } else {
                    let i = choose|i: int|
                        0 <= i < earlier.len() && #[trigger] earlier[i].1@.dom().contains(key)
                            && earlier[i].1@[key] == found;
                    assert(tables[i] == earlier[i]);
                }
            },
            None => {
                assert forall|i: int| 0 <= i < tables.len() implies !#[trigger] tables[i].1@.dom().contains(
                    key,
                ) by {
                    if i < n {
                        assert(tables[i] == earlier[i]);
                    }
                }
            },
        }
    }
}

/// Read your writes: a read of a key that was just written comes to the value
/// and the creation time of that write.
pub proof fn lemma_read_your_write(
    before: StorageEngine,
    after: StorageEngine,
    key: Seq<u8>,
    value: Seq<u8>,
    created_at: u64,
    offset: usize,
)
    requires
        after.wrote(&before, key, value, false, created_at, offset),
    ensures
        after.reading(key) == (Reading::Value { value, created_at }),
{
    assert(after.active_memtable@.dom().contains(key));
}

/// A deleted key reads as a tombstone: a read of a key whose tombstone was
/// just written ends with the tombstone.
pub proof fn lemma_deleted_key_reads_as_tombstone(
    before: StorageEngine,
    after: StorageEngine,
    key: Seq<u8>,
    value: Seq<u8>,
    created_at: u64,
    offset: usize,
)
    requires
        after.wrote(&before, key, value, true, created_at, offset),
    ensures
        after.reading(key) == Reading::TombstoneInMemtable,
{
    assert(after.active_memtable@.dom().contains(key));
}

/// Writing the same key and value twice reads like writing them once: the
/// value log holds two records, and a read comes to the same value after the
/// second write as after the first.
pub proof fn lemma_put_is_idempotent(
    start: StorageEngine,
    once: StorageEngine,
    twice: StorageEngine,
    key: Seq<u8>,
    value: Seq<u8>,
    first_at: u64,
    second_at: u64,
    first_offset: usize,
    second_offset: usize,
)
    requires
        once.wrote(&start, key, value, false, first_at, first_offset),
        twice.wrote(&once, key, value, false, second_at, second_offset),
    ensures
        once.reading(key) == (Reading::Value { value, created_at: first_at }),
        twice.reading(key) == (Reading::Value { value, created_at: second_at }),
        twice.val_log.log@ == start.val_log.log@ + record_bytes(
            (Record { key, value, created_at: first_at, is_tombstone: false }),
        ) + record_bytes((Record { key, value, created_at: second_at, is_tombstone: false })),
{
    lemma_read_your_write(start, once, key, value, first_at, first_offset);
    lemma_read_your_write(once, twice, key, value, second_at, second_offset);
}

/// A write leaves what the memtables hold for every other key as it was,
/// where creation times agree with the order of the memtables.
pub proof fn lemma_write_keeps_other_entries(
    before: StorageEngine,
    after: StorageEngine,
    key: Seq<u8>,
    value: Seq<u8>,
    is_tombstone: bool,
    created_at: u64,
    offset: usize,
    other: Seq<u8>,
)
    requires
        after.wrote(&before, key, value, is_tombstone, created_at, offset),
        before.chronological(),
        other != key,
        !is_reserved(other),
    ensures
        after.memtable_entry(other) == before.memtable_entry(other),
{
    if before.needs_rollover() {
        let sealed = after.sealed();
        let n = before.sealed().len() as int;
        assert(sealed.drop_last() =~= before.sealed());
        let full = sealed.last().1;
        assert(sealed[n] == sealed.last());
        assert(other != head_entry_key());
        assert(full.lookup(other) == before.active_memtable.lookup(other));
        assert(!after.active_memtable@.dom().contains(other));
        match before.active_memtable.lookup(other) {
            None => {},
            Some(here) => {
                lemma_newest_hit_is_entry(before.sealed(), other);
                match newest_hit(before.sealed(), other) {
                    None => {},
                    Some(o) => {
                        let i = choose|i: int|
                            0 <= i < before.sealed().len()
                                && #[trigger] before.sealed()[i].1@.dom().contains(other)
                                && before.sealed()[i].1@[other] == o;
                        assert(before.active_memtable@.dom().contains(other));
                        assert(o.1 <= here.1);
                    },
                }
            },
        }
    }
}

/// A key that was written and not written again reads as it was written:
/// a write of another key leaves the read of the key unchanged, where every
/// entry points to its record and creation times agree with the order of the
/// memtables.
pub proof fn lemma_write_keeps_other_readings(
    before: StorageEngine,
    after: StorageEngine,
    key: Seq<u8>,
    value: Seq<u8>,
    is_tombstone: bool,
    created_at: u64,
    offset: usize,
    other: Seq<u8>,
)
    requires
        after.wrote(&before, key, value, is_tombstone, created_at, offset),
        before.chronological(),
        before.faithful(),
        other != key,
        !is_reserved(other),
    ensures
        after.reading(other) == before.reading(other),
{
    lemma_write_keeps_other_entries(
        before,
        after,
        key,
        value,
        is_tombstone,
        created_at,
        offset,
        other,
    );
    match before.memtable_entry(other) {
        None => {},
        Some(entry) => {
            let rec = Record { key, value, created_at, is_tombstone };
            assert(matches_record(other, entry, before.val_log.log@)) by {
                if before.active_memtable@.dom().contains(other) {
                } else {
                    lemma_newest_hit_is_entry(before.sealed(), other);
                    let i = choose|i: int|
                        0 <= i < before.sealed().len()
                            && #[trigger] before.sealed()[i].1@.dom().contains(other)
                            && before.sealed()[i].1@[other] == entry;
                    assert(points_into(before.sealed()[i].1@, before.val_log.log@));
                }
            }
            lemma_record_at_stable(before.val_log.log@, record_bytes(rec), entry.0 as int);
        },
    }
}

/// Creation times go on agreeing with the order of the memtables after a
/// write whose creation time is not earlier than that of any entry that the
/// memtables hold for the key.
pub proof fn lemma_write_keeps_chronology(
    before: StorageEngine,
    after: StorageEngine,
    key: Seq<u8>,
    value: Seq<u8>,
    is_tombstone: bool,
    created_at: u64,
    offset: usize,
)
    requires
        after.wrote(&before, key, value, is_tombstone, created_at, offset),
        before.chronological(),
        before.active_memtable@.dom().contains(key) ==> before.active_memtable@[key].1
            <= created_at,
        forall|i: int|
            0 <= i < before.sealed().len() && #[trigger] before.sealed()[i].1@.dom().contains(key)
                ==> before.sealed()[i].1@[key].1 <= created_at,
    ensures
        after.chronological(),
{
    let n = before.sealed().len() as int;
    if before.needs_rollover() {
        let sealed = after.sealed();
        let full = sealed.last().1;
        assert(sealed[n] == sealed.last());
        assert forall|i: int| 0 <= i < n implies sealed[i] == before.sealed()[i] by {
            assert(sealed.subrange(0, n)[i] == sealed[i]);
        }
        assert forall|i: int, j: int, k: Seq<u8>|
            0 <= i < j < sealed.len() && !is_reserved(k) && #[trigger] sealed[i].1@.dom().contains(
                k,
            ) && #[trigger] sealed[j].1@.dom().contains(k) implies sealed[i].1@[k].1
            <= sealed[j].1@[k].1 by {
            assert(k != head_entry_key());
            if j < n {
                assert(before.sealed()[i].1@.dom().contains(k));
                assert(before.sealed()[j].1@.dom().contains(k));
            } else {
                assert(before.sealed()[i].1@.dom().contains(k));
                assert(before.active_memtable@.dom().contains(k));
            }
        }
        assert forall|i: int, k: Seq<u8>|
            0 <= i < sealed.len() && !is_reserved(k) && #[trigger] sealed[i].1@.dom().contains(k)
                && after.active_memtable@.dom().contains(k) implies sealed[i].1@[k].1
            <= after.active_memtable@[k].1 by {
            assert(k == key);
            assert(k != head_entry_key());
            if i < n {
                assert(before.sealed()[i].1@.dom().contains(k));
            } else {
                assert(before.active_memtable@.dom().contains(k));
            }
        }
    } else {
        assert forall|i: int, k: Seq<u8>|
            0 <= i < after.sealed().len() && !is_reserved(k)
                && #[trigger] after.sealed()[i].1@.dom().contains(k)
                && after.active_memtable@.dom().contains(k) implies after.sealed()[i].1@[k].1
            <= after.active_memtable@[k].1 by {
            assert(before.sealed()[i].1@.dom().contains(k));
            if k != key {
                assert(before.active_memtable@.dom().contains(k));
            }
        }
    }
}

/// The entries of a listing of a memtable in ascending key order, as items:
/// their keys ascend strictly and are the keys of the memtable.
pub proof fn lemma_listing_items(
    entries: Seq<crate::memtable::inmemory::Entry<Vec<u8>, usize>>,
    m: Map<Seq<u8>, IndexValue>,
)
    requires
        lists_in_order(entries, m),
    ensures
        strictly_ascending(items_of(entries)),
        forall|i: int|
            0 <= i < entries.len() ==> m.dom().contains((#[trigger] items_of(entries)[i]).key)
                && m[items_of(entries)[i].key] == item_value(items_of(entries)[i]),
        forall|k: Seq<u8>|
            m.dom().contains(k) ==> exists|i: int|
                0 <= i < entries.len() && (#[trigger] items_of(entries)[i]).key == k,
{
    let items = items_of(entries);
    assert forall|i: int, j: int| 0 <= i < j < items.len() implies key_lt(
        (#[trigger] items[i]).key,
        (#[trigger] items[j]).key,
    ) by {
        assert(items[i].key == entries[i].key@);
        assert(items[j].key == entries[j].key@);
    }
    assert forall|i: int| 0 <= i < entries.len() implies m.dom().contains(
        (#[trigger] items[i]).key,
    ) && m[items[i].key] == item_value(items[i]) by {
        assert(items[i].key == entries[i].key@);
    }
    assert forall|k: Seq<u8>| m.dom().contains(k) implies exists|i: int|
        0 <= i < entries.len() && (#[trigger] items[i]).key == k by {
        let i = choose|i: int| 0 <= i < entries.len() && entries[i].key@ == k;
        assert(items[i].key == k);
    }
}

/// A key that was flushed is found in its sorted table: a search of the
/// files that a memtable was written out to finds, for every key of the
/// memtable, exactly the entry that the memtable held, and finds nothing for
/// any other key.
#[verifier::rlimit(30)]
pub proof fn lemma_flushed_key_is_found(
    files: SstFiles,
    m: Map<Seq<u8>, IndexValue>,
    interval: int,
    key: Seq<u8>,
)
    requires
        interval > 0,
        is_image_of(files, m, interval),
        forall|k: Seq<u8>| m.dom().contains(k) ==> k.len() <= u32::MAX,
    ensures
        found_in_table(files.index@, files.data@, key) == if m.dom().contains(key) {
            Some(m[key])
        } else {
            None
        },
{
    let entries = choose|entries: Seq<crate::memtable::inmemory::Entry<Vec<u8>, usize>>|
        lists_in_order(entries, m) && files.data@ == data_of(#[trigger] items_of(entries))
            && files.index@ == crate::sparse_index::index_of(
            sparse_marks(items_of(entries), interval),
        );
    let items = items_of(entries);
    lemma_listing_items(entries, m);
    assert forall|i: int| 0 <= i < items.len() implies item_encodable(#[trigger] items[i]) by {
        assert(m.dom().contains(items[i].key));
    }
    let marks = sparse_marks(items, interval);
    lemma_marks_ascending(items, interval);
    assert forall|n: int| 0 <= n < marks.len() implies (#[trigger] marks[n]).key.len()
        <= u32::MAX by {
        let i = choose|i: int| 0 <= i < items.len() && marks[n] == mark_for(items, i);
        assert(item_encodable(items[i]));
    }
    lemma_index_round_trip(marks);
    assert(marks_from(files.index@, 0) == marks);
    assert(files.data@.len() <= usize::MAX) by {
        assert(files.data.len() == files.data@.len());
    }
    lemma_table_lookup(items, interval, key);
    if m.dom().contains(key) {
        let i = choose|i: int| 0 <= i < entries.len() && (#[trigger] items[i]).key == key;
        let j = choose|j: int| 0 <= j < items.len() && (#[trigger] items[j]).key == key;
        assert(m[items[j].key] == item_value(items[j]));
    } else {
        if exists|j: int| 0 <= j < items.len() && (#[trigger] items[j]).key == key {
            let j = choose|j: int| 0 <= j < items.len() && (#[trigger] items[j]).key == key;
            assert(m.dom().contains(items[j].key));
        }
    }
}

/// The envelope that is registered for a flushed table encloses every key in
/// the table's data file.
pub proof fn lemma_envelope_encloses_file(
    files: SstFiles,
    m: Map<Seq<u8>, IndexValue>,
    interval: int,
    smallest: Seq<u8>,
    biggest: Seq<u8>,
)
    requires
        is_image_of(files, m, interval),
        is_envelope(m, smallest, biggest),
        forall|k: Seq<u8>| m.dom().contains(k) ==> k.len() <= u32::MAX,
    ensures
        forall|i: int|
            0 <= i < items_from(files.data@, 0).len() ==> key_le(
                smallest,
                (#[trigger] items_from(files.data@, 0)[i]).key,
            ) && key_le(items_from(files.data@, 0)[i].key, biggest),
{
    let entries = choose|entries: Seq<crate::memtable::inmemory::Entry<Vec<u8>, usize>>|
        lists_in_order(entries, m) && files.data@ == data_of(#[trigger] items_of(entries))
            && files.index@ == crate::sparse_index::index_of(
            sparse_marks(items_of(entries), interval),
        );
    let items = items_of(entries);
    lemma_listing_items(entries, m);
    assert forall|i: int| 0 <= i < items.len() implies item_encodable(#[trigger] items[i]) by {
        assert(m.dom().contains(items[i].key));
    }
    lemma_data_round_trip(items);
    assert forall|i: int| 0 <= i < items.len() implies key_le(smallest, (#[trigger] items[i]).key)
        && key_le(items[i].key, biggest) by {
        assert(m.dom().contains(items[i].key));
    }
}

/// What compaction writes is sorted, free of duplicates, and holds no entry
/// that a later entry of the same key supersedes: the entries read back from
/// the data file of a compacted table ascend strictly by key, each is the
/// entry that stands for its key among the inputs, and no entry of any input
/// with the same key was created later.
#[verifier::rlimit(30)]
pub proof fn lemma_compaction_output(
    files: SstFiles,
    inputs: Seq<Seq<Item>>,
    expiry: Expiry,
    interval: int,
)
    requires
        is_compaction_of(files, inputs, expiry, interval),
        all_ascending(inputs),
        forall|t: int, n: int|
            0 <= t < inputs.len() && 0 <= n < inputs[t].len() ==> item_encodable(
                #[trigger] inputs[t][n],
            ),
    ensures
        strictly_ascending(items_from(files.data@, 0)),
        forall|i: int|
            0 <= i < items_from(files.data@, 0).len() ==> {
                let item = #[trigger] items_from(files.data@, 0)[i];
                &&& merged_all(inputs).dom().contains(item.key)
                &&& merged_all(inputs)[item.key] == item
                &&& survives(item, expiry)
            },
        forall|i: int, t: int, n: int|
            0 <= i < items_from(files.data@, 0).len() && 0 <= t < inputs.len() && 0 <= n
                < inputs[t].len() && (#[trigger] items_from(files.data@, 0)[i]).key == (
            #[trigger] inputs[t][n]).key ==> inputs[t][n].created_at <= items_from(
                files.data@,
                0,
            )[i].created_at,
{
    let items = choose|items: Seq<Item>| #[trigger]
        strictly_ascending(items) && by_key(items) == standing(inputs, expiry) && files.data@
            == data_of(items) && files.index@ == crate::sparse_index::index_of(
            sparse_marks(items, interval),
        );
    assert forall|i: int| 0 <= i < items.len() implies {
        &&& merged_all(inputs).dom().contains((#[trigger] items[i]).key)
        &&& merged_all(inputs)[items[i].key] == items[i]
        &&& survives(items[i], expiry)
    } by {
        lemma_item_for_unique(items, i);
        assert(by_key(items).dom().contains(items[i].key));
        assert(standing(inputs, expiry).dom().contains(items[i].key));
        assert(by_key(items)[items[i].key] == items[i]);
    }
    assert forall|i: int| 0 <= i < items.len() implies item_encodable(#[trigger] items[i]) by {
        lemma_merged_is_input(inputs, items[i].key);
    }
    lemma_data_round_trip(items);
    assert forall|i: int, t: int, n: int|
        0 <= i < items.len() && 0 <= t < inputs.len() && 0 <= n < inputs[t].len() && (
        #[trigger] items[i]).key == (#[trigger] inputs[t][n]).key implies inputs[t][n].created_at
        <= items[i].created_at by {
        lemma_merged_all_newest(inputs, t, n);
    }
}

/// The entry that stands for a key is an entry of one of the inputs.
pub proof fn lemma_merged_is_input(tables: Seq<Seq<Item>>, key: Seq<u8>)
    requires
        all_ascending(tables),
        merged_all(tables).dom().contains(key),
    ensures
        exists|t: int, n: int|
            0 <= t < tables.len() && 0 <= n < tables[t].len() && #[trigger] tables[t][n]
                == merged_all(tables)[key],
    decreases tables.len(),
{
    if tables.len() > 0 {
        let earlier = tables.drop_last();
        let last = tables.last();
        let u = tables.len() - 1;
        assert(strictly_ascending(last));
        assert forall|t: int| 0 <= t < earlier.len() implies strictly_ascending(
            #[trigger] earlier[t],
        ) by {
            assert(earlier[t] == tables[t]);
        }
        let picked = merged_all(tables)[key];
        if has_key(last, key) && picked == by_key(last)[key] {
            let n = choose|n: int| 0 <= n < last.len() && (#[trigger] last[n]).key == key;
            lemma_item_for_unique(last, n);
            assert(tables[u][n] == picked);
        } else {
            assert(merged_all(earlier).dom().contains(key));
            lemma_merged_is_input(earlier, key);
            let (t, n) = choose|t: int, n: int|
                0 <= t < earlier.len() && 0 <= n < earlier[t].len() && #[trigger] earlier[t][n]
                    == merged_all(earlier)[key];
            assert(tables[t] == earlier[t]);
            assert(tables[t][n] == picked);
        }
    }
}

/// A tombstone past its grace period does not survive compaction, and takes
/// the key with it: where the entry that stands for a key among the inputs is
/// a tombstone that has outlived its grace period, the compacted table has no
/// entry for the key.
pub proof fn lemma_expired_tombstone_is_dropped(
    files: SstFiles,
    inputs: Seq<Seq<Item>>,
    expiry: Expiry,
    interval: int,
    key: Seq<u8>,
)
    requires
        is_compaction_of(files, inputs, expiry, interval),
        all_ascending(inputs),
        forall|t: int, n: int|
            0 <= t < inputs.len() && 0 <= n < inputs[t].len() ==> item_encodable(
                #[trigger] inputs[t][n],
            ),
        merged_all(inputs).dom().contains(key),
        merged_all(inputs)[key].is_tombstone,
        merged_all(inputs)[key].created_at + expiry.tombstone_gc_grace_millis < expiry.now,
    ensures
        forall|i: int|
            0 <= i < items_from(files.data@, 0).len() ==> (#[trigger] items_from(
                files.data@,
                0,
            )[i]).key != key,
{
    lemma_compaction_output(files, inputs, expiry, interval);
}

/// The memtables go on mirroring the value log after a write, where creation
/// times agree with the order of the memtables.
pub proof fn lemma_write_keeps_mirror(
    before: StorageEngine,
    after: StorageEngine,
    key: Seq<u8>,
    value: Seq<u8>,
    is_tombstone: bool,
    created_at: u64,
    offset: usize,
)
    requires
        after.wrote(&before, key, value, is_tombstone, created_at, offset),
        before.mirrors_log(),
        before.chronological(),
    ensures
        after.mirrors_log(),
        records_from(after.val_log.log@, 0) == records_from(before.val_log.log@, 0).push(
            (offset as int, (Record { key, value, created_at, is_tombstone })),
        ),
{
    let rec = Record { key, value, created_at, is_tombstone };
    let log = before.val_log.log@;
    let records = records_from(log, 0);
    lemma_append_record(log, 0, rec);
    let longer = records_from(after.val_log.log@, 0);
    assert(longer == records.push((offset as int, rec)));
    let seen = gone_through(records, records.len() as int);
    let seen_after = gone_through(longer, longer.len() as int);
    assert(seen_after =~= seen.push((offset as int, rec)));
    assert(seen_after.drop_last() =~= seen);
    assert forall|k: Seq<u8>| !is_reserved(k) implies #[trigger] after.memtable_entry(k)
        == last_entry(seen_after, k) by {
        if k == key {
            assert(after.active_memtable@.dom().contains(key));
        } else {
            lemma_write_keeps_other_entries(
                before,
                after,
                key,
                value,
                is_tombstone,
                created_at,
                offset,
                k,
            );
            assert(before.memtable_entry(k) == last_entry(seen, k));
        }
    }
}

/// Reopening leaves the answers unchanged, for a store that has flushed
/// nothing: where the memtables mirror the value log, the creation times of
/// the records of each key ascend, and no sorted table is on disk, a store
/// that is opened on the value log reads every key, but for the engine's own,
/// as the running store does.
pub proof fn lemma_reopen_reads_the_same(
    running: StorageEngine,
    reopened: StorageEngine,
    bytes: Seq<u8>,
    dir: DirPath,
    capacity: int,
    config: Config,
    image: StoreImage,
    created_at: u64,
    key: Seq<u8>,
)
    requires
        running.mirrors_log(),
        times_ascend(records_from(running.val_log.log@, 0)),
        image.vlog@ == running.val_log.log@,
        image.tables@.len() == 0,
        is_opening(reopened, bytes, dir, capacity, config, image, created_at),
        !is_reserved(key),
    ensures
        reopened.memtable_entry(key) == running.memtable_entry(key),
        reopened.reading(key) == running.reading(key),
{
    let log = running.val_log.log@;
    let records = records_from(log, 0);
    assert(records.len() >= 1);
    assert(record_at(log, 0) is Some);
    assert(log.len() > 0);
    assert(reopened.val_log.head_offset == 0);
    assert(reopened.memtable_entry(key) == last_entry(
        gone_through(records, records.len() as int),
        key,
    ));
}

/// The creation times of the records of each key go on ascending after a
/// write whose creation time is not earlier than that of any record of the
/// key in the value log.
pub proof fn lemma_write_keeps_times(records: Seq<(int, Record)>, offset: int, rec: Record)
    requires
        times_ascend(records),
        forall|i: int|
            0 <= i < records.len() && (#[trigger] records[i]).1.key == rec.key
                ==> records[i].1.created_at <= rec.created_at,
    ensures
        times_ascend(records.push((offset, rec))),
{
    let longer = records.push((offset, rec));
    assert forall|i: int, j: int|
        0 <= i < j < longer.len() && (#[trigger] longer[i]).1.key == (
        #[trigger] longer[j]).1.key implies longer[i].1.created_at
        <= longer[j].1.created_at by {
        assert(longer[i] == records[i]);
        if j < records.len() {
            assert(longer[j] == records[j]);
        }
    }
}

/// Whether one of `tables` has the data file `path`.
pub open spec fn holds_path(tables: Seq<Table>, path: Seq<char>) -> bool {
    exists|i: int| 0 <= i < tables.len() && (#[trigger] tables[i]).data_file_path@ == path
}

/// Every envelope that reaches a key hands its table to the search for the
/// key.
pub proof fn lemma_reaching_holds(ranges: Seq<(String, Range)>, key: Seq<u8>, n: int)
    requires
        0 <= n < ranges.len(),
        reaches(ranges[n].1, key),
    ensures
        holds_path(tables_reaching(ranges, key), ranges[n].1.sst.data_file_path@),
    decreases ranges.len(),
{
    let found = tables_reaching(ranges, key);
    let shorter = ranges.drop_last();
    if n == ranges.len() - 1 {
        assert(found[found.len() - 1] == ranges[n].1.sst);
    } else {
        assert(shorter[n] == ranges[n]);
        lemma_reaching_holds(shorter, key, n);
        let earlier = tables_reaching(shorter, key);
        let i = choose|i: int|
            0 <= i < earlier.len() && (#[trigger] earlier[i]).data_file_path@
                == ranges[n].1.sst.data_file_path@;
        assert(found[i] == earlier[i]);
    }
}

/// A filter that is tied to a table in range and reports a key as possibly
/// present hands its table to the search for the key.
pub proof fn lemma_admitting_holds(
    filters: Seq<BloomFilter>,
    in_range: Seq<Table>,
    key: Seq<u8>,
    n: int,
)
    requires
        0 <= n < filters.len(),
        filters[n].sstable_path is Some,
        holds_path(in_range, filters[n].sstable_path->0.data_file_path@),
        filters[n].may_contain(key),
    ensures
        holds_path(
            tables_admitting(filters_of(filters, in_range), key),
            filters[n].sstable_path->0.data_file_path@,
        ),
    decreases filters.len(),
{
    let path = filters[n].sstable_path->0.data_file_path@;
    let picked = filters_of(filters, in_range);
    let found = tables_admitting(picked, key);
    let shorter = filters.drop_last();
    if n == filters.len() - 1 {
        let i = choose|i: int|
            0 <= i < in_range.len() && (#[trigger] in_range[i]).data_file_path@ == path;
        assert(is_listed(filters[n].sstable_path, in_range));
        assert(picked.last() == filters[n]);
        assert(found[found.len() - 1] == filters[n].sstable_path->0);
    } else {
        assert(shorter[n] == filters[n]);
        lemma_admitting_holds(shorter, in_range, key, n);
        let picked_before = filters_of(shorter, in_range);
        let earlier = tables_admitting(picked_before, key);
        let i = choose|i: int| 0 <= i < earlier.len() && (#[trigger] earlier[i]).data_file_path@
            == path;
        if is_listed(filters.last().sstable_path, in_range) {
            assert(picked.drop_last() =~= picked_before);
            if picked.last().sstable_path is Some && picked.last().may_contain(key) {
                assert(found[i] == earlier[i]);
            }
        }
    }
}

/// A key that was flushed is searched for in its sorted table: once
/// a memtable was written out and its table registered, the tables to search
/// for any key of the memtable include the new table.
pub proof fn lemma_flushed_table_is_searched(
    before: StorageEngine,
    after: StorageEngine,
    memtable: InMemoryTable,
    flushed: FlushedTable,
    key: Seq<u8>,
)
    requires
        before.wf(),
        after.biggest_key_index.wf(),
        memtable.wf(),
        after.registered(&before, memtable, flushed),
        memtable@.dom().contains(key),
    ensures
        holds_path(after.tables_to_search(key), flushed.table.data_file_path@),
{
    let path = flushed.table.data_file_path@;
    let ranges = after.biggest_key_index.key_ranges@;
    assert(after.biggest_key_index@.dom().contains(path));
    assert(has_path(ranges, path));
    let n = position_of(ranges, path);
    assert(ranges[n].1 == after.biggest_key_index@[path]);
    assert(reaches(ranges[n].1, key));
    lemma_reaching_holds(ranges, key, n);
    let in_range = tables_reaching(ranges, key);
    let filters = after.bloom_filters@;
    let last = filters.len() - 1;
    assert(filters[last] == filters.last());
    assert(filters[last].may_contain(key)) by {
        assert(memtable.bloom_filter.may_contain(key));
    }
    lemma_admitting_holds(filters, in_range, key, last);
}

/// A table that stands registered for a memtable is searched for every key
/// of the memtable, wherever its filter stands among the filters: so it is
/// for each of the tables that come of flushing all memtables, and a key whose
/// newest entry was a tombstone is still looked up where the tombstone went.
pub proof fn lemma_held_table_is_searched(
    engine: StorageEngine,
    memtable: InMemoryTable,
    flushed: FlushedTable,
    key: Seq<u8>,
)
    requires
        engine.biggest_key_index.wf(),
        memtable.wf(),
        engine.holds_table(memtable, flushed),
        memtable@.dom().contains(key),
    ensures
        holds_path(engine.tables_to_search(key), flushed.table.data_file_path@),
{
    let path = flushed.table.data_file_path@;
    let ranges = engine.biggest_key_index.key_ranges@;
    assert(has_path(ranges, path));
    let n = position_of(ranges, path);
    assert(ranges[n].1 == engine.biggest_key_index@[path]);
    assert(reaches(ranges[n].1, key));
    lemma_reaching_holds(ranges, key, n);
    let in_range = tables_reaching(ranges, key);
    let filters = engine.bloom_filters@;
    let j = choose|j: int|
        0 <= j < filters.len() && is_filter_of(#[trigger] filters[j], memtable, flushed.table);
    assert(filters[j].may_contain(key)) by {
        assert(memtable.bloom_filter.may_contain(key));
    }
    lemma_admitting_holds(filters, in_range, key, j);
}

/// Creation times go on agreeing with the order of the memtables after every
/// write whose creation time is later than any that the engine has given out
/// before, as the creation times of `put` and `delete` are.
pub proof fn lemma_later_write_keeps_chronology(
    before: StorageEngine,
    after: StorageEngine,
    key: Seq<u8>,
    value: Seq<u8>,
    is_tombstone: bool,
    created_at: u64,
    offset: usize,
)
    requires
        after.wrote(&before, key, value, is_tombstone, created_at, offset),
        before.chronological(),
        before.stamped(),
        created_at > before.last_write_stamp,
    ensures
        after.chronological(),
{
    assert forall|i: int|
        0 <= i < before.sealed().len() && #[trigger] before.sealed()[i].1@.dom().contains(
            key,
        ) implies before.sealed()[i].1@[key].1 <= created_at by {
        assert(!is_reserved(key));
    }
    lemma_write_keeps_chronology(before, after, key, value, is_tombstone, created_at, offset);
}

/// A write keeps the engine in step with its value log, where its creation
/// time is later than any that the engine has given out before, as the
/// creation times of `put` and `delete` are.
pub proof fn lemma_write_keeps_in_step(
    before: StorageEngine,
    after: StorageEngine,
    key: Seq<u8>,
    value: Seq<u8>,
    is_tombstone: bool,
    created_at: u64,
    offset: usize,
)
    requires
        after.wrote(&before, key, value, is_tombstone, created_at, offset),
        before.in_step(),
        created_at > before.last_write_stamp,
        after.last_write_stamp == created_at,
        after.faithful(),
        after.stamped(),
    ensures
        after.in_step(),
{
    let rec = Record { key, value, created_at, is_tombstone };
    let records = records_from(before.val_log.log@, 0);
    lemma_write_keeps_mirror(before, after, key, value, is_tombstone, created_at, offset);
    lemma_later_write_keeps_chronology(
        before,
        after,
        key,
        value,
        is_tombstone,
        created_at,
        offset,
    );
    lemma_write_keeps_times(records, offset as int, rec);
    let longer = records_from(after.val_log.log@, 0);
    assert forall|n: int| 0 <= n < longer.len() implies (#[trigger] longer[n]).1.created_at
        <= after.last_write_stamp by {
        if n < records.len() {
            assert(longer[n] == records[n]);
        }
    }
}

/// A key that was written and not written again reads as it was written, in
/// a store that is in step with its value log: a later write of another key
/// leaves the read of the key unchanged.
pub proof fn lemma_written_key_stays_readable(
    before: StorageEngine,
    after: StorageEngine,
    key: Seq<u8>,
    value: Seq<u8>,
    is_tombstone: bool,
    created_at: u64,
    offset: usize,
    other: Seq<u8>,
)
    requires
        after.wrote(&before, key, value, is_tombstone, created_at, offset),
        before.in_step(),
        other != key,
        !is_reserved(other),
    ensures
        after.reading(other) == before.reading(other),
{
    lemma_write_keeps_other_readings(
        before,
        after,
        key,
        value,
        is_tombstone,
        created_at,
        offset,
        other,
    );
}

/// What a queue of memtables holds for a key once its oldest memtable has
/// left: what it held before, where one of the others holds the key; nothing,
/// where only the oldest held it.
pub proof fn lemma_latest_hit_without_oldest(tables: Seq<(Seq<u8>, InMemoryTable)>, key: Seq<u8>)
    requires
        tables.len() >= 1,
    ensures
        latest_hit(tables.remove(0), key) is Some ==> latest_hit(tables.remove(0), key)
            == latest_hit(tables, key),
        latest_hit(tables.remove(0), key) is None ==> latest_hit(tables, key)
            == tables[0].1.lookup(key),
    decreases tables.len(),
{
    let rest = tables.remove(0);
    if tables.len() == 1 {
        assert(tables.drop_last().len() == 0);
        assert(tables.last() == tables[0]);
    } else {
        let earlier = tables.drop_last();
        assert(rest.last() == tables.last());
        assert(rest.drop_last() =~= earlier.remove(0));
        assert(earlier[0] == tables[0]);
        lemma_latest_hit_without_oldest(earlier, key);
    }
}

/// A key stays readable across the flush of the oldest sealed memtable, in
/// an engine whose creation times agree with the order of its memtables.
/// Where a memtable that stays holds the key, the memtables answer as before.
/// Where only the memtable that left held it, the memtables have no answer
/// left, the new table is among the tables to search for the key, and a search
/// of its files finds the entry that the memtable held: offset, creation time
/// and tombstone flag. So a value that was written is still read, and a
/// tombstone still hides the key.
pub proof fn lemma_flush_keeps_key_readable(
    before: StorageEngine,
    after: StorageEngine,
    flushed: FlushedTable,
    key: Seq<u8>,
)
    requires
        before.wf(),
        after.wf(),
        before.chronological(),
        after.flushed_out(&before, 0, flushed),
        !is_reserved(key),
    ensures
        after.chronological(),
        after.memtable_entry(key) is Some ==> after.memtable_entry(key) == before.memtable_entry(
            key,
        ),
        after.memtable_entry(key) is None ==> match before.memtable_entry(key) {
            None => true,
            Some(entry) => holds_path(after.tables_to_search(key), flushed.table.data_file_path@)
                && found_in_table(flushed.files.index@, flushed.files.data@, key) == Some(entry),
        },
{
    let sealed = before.sealed();
    let rest = after.sealed();
    assert(rest == sealed.remove(0));
    assert forall|i: int| 0 <= i < rest.len() implies #[trigger] rest[i] == sealed[i + 1] by {}
    assert(after.chronological()) by {
        assert forall|i: int, j: int, k: Seq<u8>|
            0 <= i < j < rest.len() && !is_reserved(k) && #[trigger] rest[i].1@.dom().contains(k)
                && #[trigger] rest[j].1@.dom().contains(k) implies rest[i].1@[k].1
            <= rest[j].1@[k].1 by {
            assert(rest[i] == sealed[i + 1]);
            assert(rest[j] == sealed[j + 1]);
            assert(sealed[i + 1].1@.dom().contains(k));
            assert(sealed[j + 1].1@.dom().contains(k));
        }
        assert forall|i: int, k: Seq<u8>|
            0 <= i < rest.len() && !is_reserved(k) && #[trigger] rest[i].1@.dom().contains(k)
                && after.active_memtable@.dom().contains(k) implies rest[i].1@[k].1
            <= after.active_memtable@[k].1 by {
            assert(rest[i] == sealed[i + 1]);
            assert(sealed[i + 1].1@.dom().contains(k));
        }
    }
    lemma_newest_hit_is_latest(sealed, key);
    lemma_newest_hit_is_latest(rest, key);
    lemma_latest_hit_without_oldest(sealed, key);
    if !before.active_memtable@.dom().contains(key) && latest_hit(rest, key) is None {
        let memtable = sealed[0].1;
        if memtable@.dom().contains(key) {
            lemma_flushed_table_is_searched(before, after, memtable, flushed, key);
            lemma_flushed_key_is_found(
                flushed.files,
                memtable@,
                effective_interval(before.config),
                key,
            );
        }
    }
}

/// A search of the table that a compaction leaves finds, for every key, the
/// entry that stands for the key among the tables that were merged, and
/// nothing where none stands.
pub proof fn lemma_compacted_key_is_found(
    files: SstFiles,
    data_files: Seq<Vec<u8>>,
    expiry: Expiry,
    interval: int,
    key: Seq<u8>,
)
    requires
        interval > 0,
        all_ascending(inputs_of(data_files)),
        is_compaction_of(files, inputs_of(data_files), expiry, interval),
    ensures
        found_in_table(files.index@, files.data@, key) == if standing(
            inputs_of(data_files),
            expiry,
        ).dom().contains(key) {
            Some(item_value(standing(inputs_of(data_files), expiry)[key]))
        } else {
            None
        },
{
    let inputs = inputs_of(data_files);
    let left = standing(inputs, expiry);
    let items = choose|items: Seq<Item>| #[trigger]
        strictly_ascending(items) && by_key(items) == left && files.data@ == data_of(items)
            && files.index@ == crate::sparse_index::index_of(sparse_marks(items, interval));
    assert forall|i: int| 0 <= i < items.len() implies item_encodable(#[trigger] items[i]) by {
        lemma_item_for_unique(items, i);
        let k = items[i].key;
        assert(by_key(items).dom().contains(k));
        assert(left[k] == items[i]);
        lemma_merged_is_input(inputs, k);
        let (t, n) = choose|t: int, n: int|
            0 <= t < inputs.len() && 0 <= n < inputs[t].len() && #[trigger] inputs[t][n]
                == merged_all(inputs)[k];
        lemma_items_from_encodable(data_files[t]@, 0);
        assert(inputs[t] == items_from(data_files[t]@, 0));
        assert(item_encodable(items_from(data_files[t]@, 0)[n]));
    }
    let marks = sparse_marks(items, interval);
    lemma_marks_ascending(items, interval);
    assert forall|n: int| 0 <= n < marks.len() implies (#[trigger] marks[n]).key.len()
        <= u32::MAX by {
        let i = choose|i: int| 0 <= i < items.len() && marks[n] == mark_for(items, i);
        assert(item_encodable(items[i]));
    }
    lemma_index_round_trip(marks);
    assert(marks_from(files.index@, 0) == marks);
    assert(files.data@.len() <= usize::MAX) by {
        assert(files.data.len() == files.data@.len());
    }
    lemma_table_lookup(items, interval, key);
    if left.dom().contains(key) {
        assert(has_key(items, key));
        let j = choose|j: int| 0 <= j < items.len() && (#[trigger] items[j]).key == key;
        lemma_item_for_unique(items, j);
        assert(left[key] == items[j]);
    } else {
        if exists|j: int| 0 <= j < items.len() && (#[trigger] items[j]).key == key {
            let j = choose|j: int| 0 <= j < items.len() && (#[trigger] items[j]).key == key;
            assert(has_key(items, key));
            assert(by_key(items).dom().contains(key));
        }
    }
}

/// A key stays readable across a compaction. The memtables answer as
/// before. Of the tables that were merged, the entry that stands for a key,
/// the newest of them, is the entry that a search of the new table finds,
/// unless it has expired; and the new table is among the tables to search for
/// the key. So a value that stood is still read, and a tombstone within its
/// grace period still hides the key.
pub proof fn lemma_compaction_keeps_key_readable(
    before: StorageEngine,
    after: StorageEngine,
    position: usize,
    data_files: Seq<Vec<u8>>,
    now: u64,
    out: CompactionOutcome,
    key: Seq<u8>,
)
    requires
        after.biggest_key_index.wf(),
        after.same_memtables(&before),
        after.compacted_at(&before, position, data_files, now, out),
        standing(inputs_of(data_files), expiry_of(before.config, now)).dom().contains(key),
    ensures
        after.memtable_entry(key) == before.memtable_entry(key),
        out.written is Some,
        found_in_table(out.written->0.files.index@, out.written->0.files.data@, key) == Some(
            item_value(standing(inputs_of(data_files), expiry_of(before.config, now))[key]),
        ),
        holds_path(after.tables_to_search(key), out.written->0.table.data_file_path@),
{
    let inputs = inputs_of(data_files);
    let expiry = expiry_of(before.config, now);
    assert(standing(inputs, expiry).dom() != Set::<Seq<u8>>::empty());
    let placed = out.written->0;
    let path = placed.table.data_file_path@;
    lemma_compacted_key_is_found(
        placed.files,
        data_files,
        expiry,
        effective_interval(before.config),
        key,
    );
    let ranges = after.biggest_key_index.key_ranges@;
    assert(has_path(ranges, path));
    let n = position_of(ranges, path);
    assert(ranges[n].1 == after.biggest_key_index@[path]);
    assert(reaches(ranges[n].1, key));
    lemma_reaching_holds(ranges, key, n);
    let filters = after.bloom_filters@;
    let j = choose|j: int|
        0 <= j < filters.len() && is_filter_over(
            #[trigger] filters[j],
            placed.table,
            standing(inputs, expiry).dom(),
        );
    lemma_admitting_holds(filters, tables_reaching(ranges, key), key, j);
}

/// What a read of a key comes to right after the record `rec` was written
/// for it.
pub open spec fn reading_of(rec: Record) -> Reading {
    if rec.is_tombstone {
        Reading::TombstoneInMemtable
    } else {
        Reading::Value { value: rec.value, created_at: rec.created_at }
    }
}

/// Whether `after` is `before` after the write `write`, a record at its
/// offset, and `before` was in step with its value log.
#[verifier::opaque]
pub open spec fn is_write_step(
    before: StorageEngine,
    after: StorageEngine,
    write: (usize, Record),
) -> bool {
    &&& before.in_step()
    &&& after.wrote(
        &before,
        write.1.key,
        write.1.value,
        write.1.is_tombstone,
        write.1.created_at,
        write.0,
    )
}

/// Whether `states` are the states that an engine goes through as the records
/// `writes` are written one after another, each at its offset, and the engine
/// is in step with its value log before every write.
pub open spec fn written_in_turn(states: Seq<StorageEngine>, writes: Seq<(usize, Record)>) -> bool {
    &&& states.len() == writes.len() + 1
    &&& forall|i: int|
        0 <= i < writes.len() ==> is_write_step(states[i], states[i + 1], #[trigger] writes[i])
}

/// A write is read back, and leaves the reading of every other key that a
/// write can have as it was.
pub proof fn lemma_write_step(
    before: StorageEngine,
    after: StorageEngine,
    write: (usize, Record),
    other: Seq<u8>,
)
    requires
        is_write_step(before, after, write),
    ensures
        !is_reserved(write.1.key),
        after.reading(write.1.key) == reading_of(write.1),
        other != write.1.key && !is_reserved(other) ==> after.reading(other) == before.reading(
            other,
        ),
{
    reveal(is_write_step);
    let rec = write.1;
    if rec.is_tombstone {
        lemma_deleted_key_reads_as_tombstone(
            before,
            after,
            rec.key,
            rec.value,
            rec.created_at,
            write.0,
        );
    } else {
        lemma_read_your_write(before, after, rec.key, rec.value, rec.created_at, write.0);
    }
    if other != rec.key && !is_reserved(other) {
        lemma_written_key_stays_readable(
            before,
            after,
            rec.key,
            rec.value,
            rec.is_tombstone,
            rec.created_at,
            write.0,
            other,
        );
    }
}

/// A key reads as it was last written, however many writes of other keys
/// and however many rollovers came after: after a run of writes, a read of
/// the key of any write that no later write of the run has superseded comes to
/// what that write recorded.
pub proof fn lemma_last_write_is_read(
    states: Seq<StorageEngine>,
    writes: Seq<(usize, Record)>,
    j: int,
)
    requires
        written_in_turn(states, writes),
        0 <= j < writes.len(),
        forall|l: int| j < l < writes.len() ==> (#[trigger] writes[l]).1.key != writes[j].1.key,
    ensures
        states.last().reading(writes[j].1.key) == reading_of(writes[j].1),
    decreases writes.len(),
{
    let n = writes.len() - 1;
    let before = states[n];
    let after = states[n + 1];
    let other = writes[j].1.key;
    assert(is_write_step(before, after, writes[n]));
    assert(is_write_step(states[j], states[j + 1], writes[j]));
    lemma_write_step(states[j], states[j + 1], writes[j], other);
    lemma_write_step(before, after, writes[n], other);
    if j != n {
        let earlier_states = states.drop_last();
        let earlier = writes.drop_last();
        assert forall|i: int| 0 <= i < earlier.len() implies is_write_step(
            earlier_states[i],
            earlier_states[i + 1],
            #[trigger] earlier[i],
        ) by {
            assert(earlier[i] == writes[i]);
            assert(earlier_states[i] == states[i]);
            assert(earlier_states[i + 1] == states[i + 1]);
            assert(is_write_step(states[i], states[i + 1], writes[i]));
        }
        assert forall|l: int| j < l < earlier.len() implies (#[trigger] earlier[l]).1.key
            != earlier[j].1.key by {
            assert(earlier[l] == writes[l]);
        }
        lemma_last_write_is_read(earlier_states, earlier, j);
        assert(earlier_states.last() == before);
        assert(earlier[j] == writes[j]);
        assert(writes[n].1.key != other);
    }
}

/// Writing a key and a value twice reads like writing them once, for every
/// key: from one state of an engine that is in step with its value log, the
/// state after one such write and the state after two of them read every key
/// but the engine's own alike, up to the creation time of the key that was
/// written.
pub proof fn lemma_put_twice_reads_like_once(
    start: StorageEngine,
    once: StorageEngine,
    between: StorageEngine,
    twice: StorageEngine,
    single: (usize, Record),
    first: (usize, Record),
    second: (usize, Record),
    key: Seq<u8>,
)
    requires
        is_write_step(start, once, single),
        is_write_step(start, between, first),
        is_write_step(between, twice, second),
        !single.1.is_tombstone,
        first.1.key == single.1.key && first.1.value == single.1.value && !first.1.is_tombstone,
        second.1.key == single.1.key && second.1.value == single.1.value && !second.1.is_tombstone,
        !is_reserved(key),
    ensures
        key != single.1.key ==> once.reading(key) == twice.reading(key),
        key == single.1.key ==> once.reading(key) == (Reading::Value {
            value: single.1.value,
            created_at: single.1.created_at,
        }) && twice.reading(key) == (Reading::Value {
            value: single.1.value,
            created_at: second.1.created_at,
        }),
{
    lemma_write_step(start, once, single, key);
    lemma_write_step(start, between, first, key);
    lemma_write_step(between, twice, second, key);
}

/// The place of the last of `writes` that is a write of `key`; -1 where there
/// is none.
pub open spec fn last_write_of(writes: Seq<(usize, Record)>, key: Seq<u8>) -> int
    decreases writes.len(),
{
    if writes.len() == 0 {
        -1
    } else if writes.last().1.key == key {
        writes.len() - 1
    } else {
        last_write_of(writes.drop_last(), key)
    }
}

/// The last write of a key that was written is a write of the key, and no
/// write of the key comes after it.
pub proof fn lemma_last_write_of(writes: Seq<(usize, Record)>, i: int)
    requires
        0 <= i < writes.len(),
    ensures
        i <= last_write_of(writes, writes[i].1.key) < writes.len(),
        writes[last_write_of(writes, writes[i].1.key)].1.key == writes[i].1.key,
        forall|l: int|
            last_write_of(writes, writes[i].1.key) < l < writes.len() ==> (#[trigger] writes[l]).1.key
                != writes[i].1.key,
    decreases writes.len(),
{
    let key = writes[i].1.key;
    if writes.last().1.key != key {
        let earlier = writes.drop_last();
        assert(earlier[i] == writes[i]);
        lemma_last_write_of(earlier, i);
        let j = last_write_of(earlier, key);
        assert(earlier[j] == writes[j]);
        assert forall|l: int| j < l < writes.len() implies (#[trigger] writes[l]).1.key != key by {
            if l < earlier.len() {
                assert(earlier[l] == writes[l]);
            }
        }
    }
}

/// Every key of a run of writes reads as its last write recorded it. Where
/// every write of the run stored the same value, every key of the run reads
/// with that value, whatever keys were written, in whatever order and however
/// often.
pub proof fn lemma_every_write_is_read(
    states: Seq<StorageEngine>,
    writes: Seq<(usize, Record)>,
    i: int,
)
    requires
        written_in_turn(states, writes),
        0 <= i < writes.len(),
    ensures
        states.last().reading(writes[i].1.key) == reading_of(
            writes[last_write_of(writes, writes[i].1.key)].1,
        ),
        forall|value: Seq<u8>|
            (forall|l: int|
                0 <= l < writes.len() ==> !(#[trigger] writes[l]).1.is_tombstone && writes[l].1.value
                    == value) ==> states.last().reading(writes[i].1.key) == (Reading::Value {
                value,
                created_at: writes[last_write_of(writes, writes[i].1.key)].1.created_at,
            }),
{
    lemma_last_write_of(writes, i);
    let j = last_write_of(writes, writes[i].1.key);
    lemma_last_write_is_read(states, writes, j);
}

} // verus!
