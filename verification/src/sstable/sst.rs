//! The data file of a sorted table: index entries in ascending key order, one
//! after the other.
//!
//! An entry is laid out as
//! `key_len:u32 | key | value_offset:u64 | created_at:u64 | is_tombstone:u8`,
//! integers little-endian, nothing in between.

use crate::codec::{
    append_bytes, flag_byte, lemma_u32_round_trip, lemma_u64_round_trip, put_u32_le, put_u64_le,
    read_bytes, read_u32_le, read_u64_le, u32_at, u64_at,
};
use crate::keys::{
    key_le, key_lt, key_order, lemma_key_lt_asymmetric, lemma_key_lt_irreflexive, KeyOrder,
};
use crate::memtable::index::IndexValue;
use crate::memtable::inmemory::Entry;
use crate::sparse_index::{floor_offset, index_of, Mark, SparseIndex};
use vstd::bytes::{
    lemma_auto_spec_u32_to_from_le_bytes, lemma_auto_spec_u64_to_from_le_bytes,
    spec_u32_to_le_bytes, spec_u64_to_le_bytes,
};
use vstd::prelude::*;

verus! {

/// Bytes of an entry besides its key.
pub const SST_ENTRY_OVERHEAD: usize = 21;

/// Bytes of an entry behind its key.
pub const SST_ENTRY_TRAILER: usize = 17;

/// An index entry as a mathematical value.
pub struct Item {
    pub key: Seq<u8>,
    pub val_offset: usize,
    pub created_at: u64,
    pub is_tombstone: bool,
}

/// What `entry` stands for.
pub open spec fn item_of(entry: Entry<Vec<u8>, usize>) -> Item {
    Item {
        key: entry.key@,
        val_offset: entry.val_offset,
        created_at: entry.created_at,
        is_tombstone: entry.is_tombstone,
    }
}

/// What `entries` stand for, entry by entry.
pub open spec fn items_of(entries: Seq<Entry<Vec<u8>, usize>>) -> Seq<Item> {
    Seq::new(entries.len(), |i: int| item_of(entries[i]))
}

/// What a table stores for the key of `item`.
pub open spec fn item_value(item: Item) -> IndexValue {
    (item.val_offset, item.created_at, item.is_tombstone)
}

/// Whether the key's length fits its field.
pub open spec fn item_encodable(item: Item) -> bool {
    item.key.len() <= u32::MAX
}

/// The bytes of an entry.
pub open spec fn item_bytes(item: Item) -> Seq<u8> {
    spec_u32_to_le_bytes(item.key.len() as u32) + item.key + spec_u64_to_le_bytes(
        item.val_offset as u64,
    ) + spec_u64_to_le_bytes(item.created_at) + seq![flag_byte(item.is_tombstone)]
}

/// The number of bytes of an entry.
pub open spec fn item_len(item: Item) -> int {
    SST_ENTRY_OVERHEAD + item.key.len()
}

/// The entry that starts at `at` in `data`, if a whole well-formed entry
/// stands there.
pub open spec fn item_at(data: Seq<u8>, at: int) -> Option<Item> {
    if 0 <= at && at + 4 <= data.len() {
        let key_len = u32_at(data, at) as int;
        if at + SST_ENTRY_OVERHEAD + key_len <= data.len() {
            let behind = at + 4 + key_len;
            let flag = data[behind + 16];
            if flag <= 1 && u64_at(data, behind) <= usize::MAX {
                Some(
                    Item {
                        key: data.subrange(at + 4, behind),
                        val_offset: u64_at(data, behind) as usize,
                        created_at: u64_at(data, behind + 8),
                        is_tombstone: flag == 1,
                    },
                )
            } else {
                None
            }
        } else {
            None
        }
    } else {
        None
    }
}

/// The entries of `data` from `at` on, up to the first place where no whole
/// well-formed entry stands.
pub open spec fn items_from(data: Seq<u8>, at: int) -> Seq<Item>
    decreases data.len() - at,
{
    match item_at(data, at) {
        Some(item) => seq![item] + items_from(data, at + item_len(item)),
        None => Seq::empty(),
    }
}

/// The data file that holds exactly `items`, one after the other.
pub open spec fn data_of(items: Seq<Item>) -> Seq<u8>
    decreases items.len(),
{
    if items.len() == 0 {
        Seq::empty()
    } else {
        data_of(items.drop_last()) + item_bytes(items.last())
    }
}

/// What a scan of `data` from `at` finds for `key`: it reads entry after
/// entry, stops with the entry of `key` or at the first larger key, and finds
/// nothing where the entries end before that.
pub open spec fn scan(data: Seq<u8>, at: int, key: Seq<u8>) -> Option<IndexValue>
    decreases data.len() - at,
{
    match item_at(data, at) {
        None => None,
        Some(item) => if item.key == key {
            Some(item_value(item))
        } else if key_lt(key, item.key) {
            None
        } else {
            scan(data, at + item_len(item), key)
        },
    }
}

/// Keys ascend strictly from each item to the next.
pub open spec fn strictly_ascending(items: Seq<Item>) -> bool {
    forall|i: int, j: int|
        0 <= i < j < items.len() ==> key_lt((#[trigger] items[i]).key, (#[trigger] items[j]).key)
}

/// The bytes of an entry are as many as its length says.
pub proof fn lemma_item_bytes_len(item: Item)
    ensures
        item_bytes(item).len() == item_len(item),
{
    lemma_auto_spec_u32_to_from_le_bytes();
    lemma_auto_spec_u64_to_from_le_bytes();
}

/// An entry written between any two byte strings is read back from where it
/// starts.
pub proof fn lemma_item_round_trip(prefix: Seq<u8>, item: Item, suffix: Seq<u8>)
    requires
        item_encodable(item),
    ensures
        item_at(prefix + item_bytes(item) + suffix, prefix.len() as int) == Some(item),
{
    lemma_auto_spec_u32_to_from_le_bytes();
    lemma_auto_spec_u64_to_from_le_bytes();
    let data = prefix + item_bytes(item) + suffix;
    let at = prefix.len() as int;
    let k = spec_u32_to_le_bytes(item.key.len() as u32);
    let o = spec_u64_to_le_bytes(item.val_offset as u64);
    let t = spec_u64_to_le_bytes(item.created_at);
    let f = seq![flag_byte(item.is_tombstone)];
    assert(data =~= prefix + k + (item.key + o + t + f + suffix));
    lemma_u32_round_trip(prefix, item.key.len() as u32, item.key + o + t + f + suffix);
    let behind = at + 4 + item.key.len();
    assert(data =~= (prefix + k + item.key) + o + (t + f + suffix));
    lemma_u64_round_trip(prefix + k + item.key, item.val_offset as u64, t + f + suffix);
    assert(data =~= (prefix + k + item.key + o) + t + (f + suffix));
    lemma_u64_round_trip(prefix + k + item.key + o, item.created_at, f + suffix);
    assert(data[behind + 16] == flag_byte(item.is_tombstone));
    assert(data.subrange(at + 4, behind) =~= item.key);
}

/// The data file of two runs of entries is the file of the first followed by
/// the file of the second.
pub proof fn lemma_data_of_concat(a: Seq<Item>, b: Seq<Item>)
    ensures
        data_of(a + b) == data_of(a) + data_of(b),
    decreases b.len(),
{
    if b.len() == 0 {
        assert(a + b =~= a);
        assert(data_of(a) + data_of(b) =~= data_of(a));
    } else {
        assert((a + b).drop_last() =~= a + b.drop_last());
        assert((a + b).last() == b.last());
        lemma_data_of_concat(a, b.drop_last());
        assert(data_of(a + b) =~= data_of(a) + data_of(b));
    }
}

/// Reading the data file of `before + rest` from the end of `before` gives
/// `rest`.
pub proof fn lemma_items_from_data(before: Seq<Item>, rest: Seq<Item>)
    requires
        forall|i: int| 0 <= i < before.len() ==> item_encodable(#[trigger] before[i]),
        forall|i: int| 0 <= i < rest.len() ==> item_encodable(#[trigger] rest[i]),
    ensures
        items_from(data_of(before + rest), data_of(before).len() as int) == rest,
    decreases rest.len(),
{
    let whole = before + rest;
    let at = data_of(before).len() as int;
    if rest.len() == 0 {
        assert(whole =~= before);
        assert(item_at(data_of(before), at) is None);
        assert(items_from(data_of(whole), at) =~= rest);
    } else {
        let first = rest[0];
        let later = rest.drop_first();
        let upto = before.push(first);
        assert(whole =~= upto + later);
        lemma_data_of_concat(upto, later);
        assert(upto.drop_last() =~= before);
        assert(data_of(upto) == data_of(before) + item_bytes(first));
        lemma_item_round_trip(data_of(before), first, data_of(later));
        lemma_item_bytes_len(first);
        assert forall|i: int| 0 <= i < upto.len() implies item_encodable(#[trigger] upto[i]) by {
            if i < before.len() {
                assert(upto[i] == before[i]);
            }
        }
        assert forall|i: int| 0 <= i < later.len() implies item_encodable(#[trigger] later[i]) by {
            assert(later[i] == rest[i + 1]);
        }
        lemma_items_from_data(upto, later);
        assert(items_from(data_of(whole), at) =~= seq![first] + items_from(
            data_of(whole),
            at + item_len(first),
        ));
        assert(items_from(data_of(whole), at) =~= rest);
    }
}

/// Every entry written to a data file is read back from offset zero, exactly
/// as it was written and in the order of writing.
pub proof fn lemma_data_round_trip(items: Seq<Item>)
    requires
        forall|i: int| 0 <= i < items.len() ==> item_encodable(#[trigger] items[i]),
    ensures
        items_from(data_of(items), 0) == items,
{
    let none = Seq::<Item>::empty();
    assert(none + items =~= items);
    lemma_items_from_data(none, items);
}

/// In the data file of a table with strictly ascending keys, a scan from the
/// start of any entry finds every key that stands at or behind that entry,
/// and finds nothing for a key that the table lacks.
#[verifier::rlimit(30)]
pub proof fn lemma_scan_finds(before: Seq<Item>, rest: Seq<Item>, key: Seq<u8>)
    requires
        forall|i: int| 0 <= i < before.len() ==> item_encodable(#[trigger] before[i]),
        forall|i: int| 0 <= i < rest.len() ==> item_encodable(#[trigger] rest[i]),
        strictly_ascending(rest),
    ensures
        forall|j: int|
            0 <= j < rest.len() && (#[trigger] rest[j]).key == key ==> scan(
                data_of(before + rest),
                data_of(before).len() as int,
                key,
            ) == Some(item_value(rest[j])),
        (forall|j: int| 0 <= j < rest.len() ==> (#[trigger] rest[j]).key != key) ==> scan(
            data_of(before + rest),
            data_of(before).len() as int,
            key,
        ) is None,
    decreases rest.len(),
{
    let whole = before + rest;
    let at = data_of(before).len() as int;
    if rest.len() == 0 {
        assert(whole =~= before);
        assert(item_at(data_of(before), at) is None);
    } else {
        let first = rest[0];
        let later = rest.drop_first();
        let upto = before.push(first);
        assert(whole =~= upto + later);
        lemma_data_of_concat(upto, later);
        assert(upto.drop_last() =~= before);
        assert(data_of(upto) == data_of(before) + item_bytes(first));
        lemma_item_round_trip(data_of(before), first, data_of(later));
        lemma_item_bytes_len(first);
        assert forall|i: int| 0 <= i < upto.len() implies item_encodable(#[trigger] upto[i]) by {
            if i < before.len() {
                assert(upto[i] == before[i]);
            }
        }
        assert forall|i: int| 0 <= i < later.len() implies item_encodable(#[trigger] later[i]) by {
            assert(later[i] == rest[i + 1]);
        }
        assert forall|i: int, j: int| 0 <= i < j < later.len() implies key_lt(
            (#[trigger] later[i]).key,
            (#[trigger] later[j]).key,
        ) by {
            assert(later[i] == rest[i + 1]);
            assert(later[j] == rest[j + 1]);
        }
        lemma_scan_finds(upto, later, key);
        if first.key == key {
            assert forall|j: int| 0 <= j < rest.len() && (#[trigger] rest[j]).key == key implies j
                == 0 by {
                if j > 0 {
                    assert(key_lt(rest[0].key, rest[j].key));
                    crate::keys::lemma_key_lt_irreflexive(key);
                }
            }
        } else if key_lt(key, first.key) {
            assert forall|j: int| 0 <= j < rest.len() implies (#[trigger] rest[j]).key != key by {
                if j > 0 {
                    assert(key_lt(rest[0].key, rest[j].key));
                    if rest[j].key == key {
                        crate::keys::lemma_key_lt_asymmetric(key, first.key);
                    }
                }
            }
        } else {
            assert forall|j: int| 0 <= j < rest.len() && (#[trigger] rest[j]).key == key implies
                scan(data_of(whole), at, key) == Some(item_value(rest[j])) by {
                assert(j > 0);
                assert(later[j - 1] == rest[j]);
            }
            if forall|j: int| 0 <= j < rest.len() ==> (#[trigger] rest[j]).key != key {
                assert forall|j: int| 0 <= j < later.len() implies (#[trigger] later[j]).key
                    != key by {
                    assert(later[j] == rest[j + 1]);
                }
            }
        }
    }
}

/// The mark for the item at position `i`: its key, and the offset at which
/// its entry starts in the data file.
pub open spec fn mark_for(items: Seq<Item>, i: int) -> Mark {
    Mark { key: items[i].key, offset: data_of(items.subrange(0, i)).len() as usize }
}

/// The marks of a table with `items`: one for the first item and for every
/// `interval`-th item behind it.
pub open spec fn sparse_marks(items: Seq<Item>, interval: int) -> Seq<Mark>
    decreases items.len(),
{
    if items.len() == 0 {
        Seq::empty()
    } else {
        let earlier = sparse_marks(items.drop_last(), interval);
        if (items.len() - 1) % interval == 0 {
            earlier.push(mark_for(items, items.len() - 1))
        } else {
            earlier
        }
    }
}

/// What `items` store for `key`.
pub open spec fn stored_value(items: Seq<Item>, key: Seq<u8>) -> Option<IndexValue> {
    if exists|j: int| 0 <= j < items.len() && (#[trigger] items[j]).key == key {
        let j = choose|j: int| 0 <= j < items.len() && (#[trigger] items[j]).key == key;
        Some(item_value(items[j]))
    } else {
        None
    }
}

/// What a lookup of `key` finds in a table with these marks and this data
/// file: the scan from the floor of `key` among the marks.
pub open spec fn table_lookup(marks: Seq<Mark>, data: Seq<u8>, key: Seq<u8>) -> Option<IndexValue> {
    match floor_offset(marks, key) {
        None => None,
        Some(offset) => scan(data, offset as int, key),
    }
}

/// Every mark of a table is the mark for one of its items, and the first mark
/// is the mark for the first item.
pub proof fn lemma_marks_are_items(items: Seq<Item>, interval: int)
    requires
        interval > 0,
    ensures
        forall|m: int|
            0 <= m < sparse_marks(items, interval).len() ==> exists|i: int|
                0 <= i < items.len() && (#[trigger] sparse_marks(items, interval)[m]) == mark_for(
                    items,
                    i,
                ),
        items.len() > 0 ==> sparse_marks(items, interval).len() > 0 && sparse_marks(
            items,
            interval,
        )[0] == mark_for(items, 0),
    decreases items.len(),
{
    if items.len() > 0 {
        let shorter = items.drop_last();
        let marks = sparse_marks(items, interval);
        let earlier = sparse_marks(shorter, interval);
        lemma_marks_are_items(shorter, interval);
        assert forall|m: int| 0 <= m < marks.len() implies exists|i: int|
            0 <= i < items.len() && (#[trigger] marks[m]) == mark_for(items, i) by {
            if m < earlier.len() {
                let i = choose|i: int| 0 <= i < shorter.len() && earlier[m] == mark_for(shorter, i);
                assert(shorter.subrange(0, i) =~= items.subrange(0, i));
                assert(marks[m] == mark_for(items, i));
            } else {
                assert(marks[m] == mark_for(items, items.len() - 1));
            }
        }
        if shorter.len() > 0 {
            assert(shorter.subrange(0, 0) =~= items.subrange(0, 0));
            assert(marks[0] == earlier[0]);
        } else {
            assert(0int % interval == 0);
        }
    }
}

/// The floor is the offset of a mark whose key is the probe or smaller; where
/// there is no floor, every mark has a larger key.
pub proof fn lemma_floor_is_mark(marks: Seq<Mark>, key: Seq<u8>)
    ensures
        floor_offset(marks, key) is None ==> forall|m: int|
            0 <= m < marks.len() ==> !key_le((#[trigger] marks[m]).key, key),
        floor_offset(marks, key) matches Some(offset) ==> exists|m: int|
            0 <= m < marks.len() && (#[trigger] marks[m]).offset == offset && key_le(
                marks[m].key,
                key,
            ),
    decreases marks.len(),
{
    if marks.len() > 0 {
        if key_le(marks.last().key, key) {
            assert(marks[marks.len() - 1].offset == floor_offset(marks, key)->0);
        } else {
            let shorter = marks.drop_last();
            lemma_floor_is_mark(shorter, key);
            if floor_offset(marks, key) is None {
                assert forall|m: int| 0 <= m < marks.len() implies !key_le(
                    (#[trigger] marks[m]).key,
                    key,
                ) by {
                    if m < shorter.len() {
                        assert(shorter[m] == marks[m]);
                    }
                }
            } else {
                let offset = floor_offset(marks, key)->0;
                let m = choose|m: int|
                    0 <= m < shorter.len() && (#[trigger] shorter[m]).offset == offset && key_le(
                        shorter[m].key,
                        key,
                    );
                assert(marks[m] == shorter[m]);
            }
        }
    }
}

/// A scan from the start of an entry whose key is the probe or smaller finds
/// what the table stores for the probe.
pub proof fn lemma_lookup_from(items: Seq<Item>, i: int, key: Seq<u8>)
    requires
        strictly_ascending(items),
        forall|n: int| 0 <= n < items.len() ==> item_encodable(#[trigger] items[n]),
        0 <= i < items.len(),
        key_le(items[i].key, key),
    ensures
        scan(data_of(items), data_of(items.subrange(0, i)).len() as int, key) == stored_value(
            items,
            key,
        ),
{
    let before = items.subrange(0, i);
    let rest = items.subrange(i, items.len() as int);
    assert(before + rest =~= items);
    assert forall|a: int, b: int| 0 <= a < b < rest.len() implies key_lt(
        (#[trigger] rest[a]).key,
        (#[trigger] rest[b]).key,
    ) by {
        assert(rest[a] == items[i + a]);
        assert(rest[b] == items[i + b]);
    }
    assert forall|n: int| 0 <= n < before.len() implies item_encodable(#[trigger] before[n]) by {
        assert(before[n] == items[n]);
    }
    assert forall|n: int| 0 <= n < rest.len() implies item_encodable(#[trigger] rest[n]) by {
        assert(rest[n] == items[i + n]);
    }
    lemma_scan_finds(before, rest, key);
    if exists|j: int| 0 <= j < items.len() && (#[trigger] items[j]).key == key {
        let j = choose|j: int| 0 <= j < items.len() && (#[trigger] items[j]).key == key;
        if j < i {
            assert(key_lt(items[j].key, items[i].key));
            if items[i].key == key {
                lemma_key_lt_irreflexive(key);
            } else {
                lemma_key_lt_asymmetric(items[j].key, items[i].key);
            }
        }
        assert(rest[j - i] == items[j]);
    } else {
        assert forall|j: int| 0 <= j < rest.len() implies (#[trigger] rest[j]).key != key by {
            assert(rest[j] == items[i + j]);
        }
    }
}

/// A table whose first key is larger than the probe stores nothing for the
/// probe.
pub proof fn lemma_lookup_below(items: Seq<Item>, key: Seq<u8>)
    requires
        strictly_ascending(items),
        items.len() > 0 ==> !key_le(items[0].key, key),
    ensures
        stored_value(items, key) is None,
{
    if exists|j: int| 0 <= j < items.len() && (#[trigger] items[j]).key == key {
        let j = choose|j: int| 0 <= j < items.len() && (#[trigger] items[j]).key == key;
        if j > 0 {
            assert(key_lt(items[0].key, items[j].key));
        }
    }
}

/// A lookup through the sparse index finds what the table stores: in a table
/// with strictly ascending keys, the scan from the floor of a key finds the
/// entry of that key if the table has one, and nothing if it has none.
#[verifier::rlimit(30)]
pub proof fn lemma_table_lookup(items: Seq<Item>, interval: int, key: Seq<u8>)
    requires
        interval > 0,
        strictly_ascending(items),
        forall|i: int| 0 <= i < items.len() ==> item_encodable(#[trigger] items[i]),
        data_of(items).len() <= usize::MAX,
    ensures
        table_lookup(sparse_marks(items, interval), data_of(items), key) == stored_value(
            items,
            key,
        ),
{
    let marks = sparse_marks(items, interval);
    match floor_offset(marks, key) {
        None => {
            assert(items.len() > 0 ==> !key_le(items[0].key, key)) by {
                lemma_marks_are_items(items, interval);
                lemma_floor_is_mark(marks, key);
                if items.len() > 0 {
                    assert(marks[0] == mark_for(items, 0));
                    assert(!key_le(marks[0].key, key));
                }
            }
            lemma_lookup_below(items, key);
        },
        Some(offset) => {
            assert(exists|i: int|
                0 <= i < items.len() && key_le(items[i].key, key) && offset as int == data_of(
                    #[trigger] items.subrange(0, i),
                ).len()) by {
                lemma_marks_are_items(items, interval);
                lemma_floor_is_mark(marks, key);
                let m = choose|m: int|
                    0 <= m < marks.len() && (#[trigger] marks[m]).offset == offset && key_le(
                        marks[m].key,
                        key,
                    );
                let i = choose|i: int| 0 <= i < items.len() && marks[m] == mark_for(items, i);
                let before = items.subrange(0, i);
                let rest = items.subrange(i, items.len() as int);
                assert(before + rest =~= items);
                lemma_data_prefix_len(before, rest);
                assert(key_le(items[i].key, key));
                assert(offset as int == data_of(items.subrange(0, i)).len());
            }
            let i = choose|i: int|
                0 <= i < items.len() && key_le(items[i].key, key) && offset as int == data_of(
                    #[trigger] items.subrange(0, i),
                ).len();
            lemma_lookup_from(items, i, key);
        },
    }
}

/// The data file of a run of entries is no longer than the data file of the
/// run with more entries behind it.
pub proof fn lemma_data_prefix_len(before: Seq<Item>, rest: Seq<Item>)
    ensures
        data_of(before).len() <= data_of(before + rest).len(),
{
    lemma_data_of_concat(before, rest);
}

/// Every entry read from a data file has a key that fits its length field.
pub proof fn lemma_items_from_encodable(data: Seq<u8>, at: int)
    ensures
        forall|i: int|
            0 <= i < items_from(data, at).len() ==> item_encodable(
                #[trigger] items_from(data, at)[i],
            ),
    decreases data.len() - at,
{
    match item_at(data, at) {
        Some(item) => {
            lemma_items_from_encodable(data, at + item_len(item));
            let rest = items_from(data, at + item_len(item));
            let all = items_from(data, at);
            assert(all =~= seq![item] + rest);
            assert forall|i: int| 0 <= i < all.len() implies item_encodable(#[trigger] all[i]) by {
                if i > 0 {
                    assert(all[i] == rest[i - 1]);
                }
            }
        },
        None => {},
    }
}

/// The marks of a table with strictly ascending keys ascend strictly, and
/// each is the mark for one of the table's items.
pub proof fn lemma_marks_ascending(items: Seq<Item>, interval: int)
    requires
        interval > 0,
        strictly_ascending(items),
    ensures
        crate::sparse_index::marks_ascending(sparse_marks(items, interval)),
        forall|m: int|
            0 <= m < sparse_marks(items, interval).len() ==> exists|i: int|
                0 <= i < items.len() && (#[trigger] sparse_marks(items, interval)[m]) == mark_for(
                    items,
                    i,
                ),
    decreases items.len(),
{
    lemma_marks_are_items(items, interval);
    if items.len() > 0 {
        let shorter = items.drop_last();
        let n = items.len() - 1;
        assert forall|a: int, b: int| 0 <= a < b < shorter.len() implies key_lt(
            (#[trigger] shorter[a]).key,
            (#[trigger] shorter[b]).key,
        ) by {
            assert(shorter[a] == items[a]);
            assert(shorter[b] == items[b]);
        }
        lemma_marks_ascending(shorter, interval);
        let marks = sparse_marks(items, interval);
        let earlier = sparse_marks(shorter, interval);
        assert forall|a: int, b: int| 0 <= a < b < marks.len() implies key_lt(
            (#[trigger] marks[a]).key,
            (#[trigger] marks[b]).key,
        ) by {
            if b < earlier.len() {
                assert(marks[a] == earlier[a]);
                assert(marks[b] == earlier[b]);
            } else {
                assert(marks[a] == earlier[a]);
                let i = choose|i: int| 0 <= i < shorter.len() && earlier[a] == mark_for(shorter, i);
                assert(shorter[i] == items[i]);
                assert(key_lt(items[i].key, items[n].key));
                assert(marks[b] == mark_for(items, n));
            }
        }
    }
}

/// The two files of a sorted table, as bytes.
#[derive(Debug)]
pub struct SstFiles {
    pub data: Vec<u8>,
    pub index: Vec<u8>,
}

/// The files of a sorted table.
pub struct SSTable {}

impl SSTable {
    /// Appends the bytes of `entry` to `data`.
    pub fn write_entry(data: &mut Vec<u8>, entry: &Entry<Vec<u8>, usize>)
        requires
            entry.key@.len() <= u32::MAX,
        ensures
            final(data)@ == old(data)@ + item_bytes(item_of(*entry)),
    {
        let ghost before = data@;
        put_u32_le(data, entry.key.len() as u32);
        append_bytes(data, entry.key.as_slice());
        put_u64_le(data, entry.val_offset as u64);
        put_u64_le(data, entry.created_at);
        data.push(if entry.is_tombstone { 1u8 } else { 0u8 });
        assert(data@ =~= before + item_bytes(item_of(*entry)));
    }

    /// The data file and the index file of a table that holds `entries` in
    /// their order, with a mark for the first entry and for every
    /// `sparse_interval`-th entry behind it. `None` where a key is too long for
    /// its length field.
    pub fn encode(entries: &Vec<Entry<Vec<u8>, usize>>, sparse_interval: usize) -> (r: Option<
        SstFiles,
    >)
        requires
            sparse_interval > 0,
        ensures
            r is Some <==> forall|i: int|
                0 <= i < entries@.len() ==> item_encodable(#[trigger] items_of(entries@)[i]),
            r matches Some(files) ==> files.data@ == data_of(items_of(entries@)) && files.index@
                == index_of(sparse_marks(items_of(entries@), sparse_interval as int)),
    {
        let ghost items = items_of(entries@);
        let mut data: Vec<u8> = Vec::new();
        let mut index: Vec<u8> = Vec::new();
        let mut i: usize = 0;
        while i < entries.len()
            invariant
                i <= entries@.len(),
                sparse_interval > 0,
                items == items_of(entries@),
                forall|j: int| 0 <= j < i ==> item_encodable(#[trigger] items[j]),
                data@ == data_of(items.subrange(0, i as int)),
                index@ == index_of(sparse_marks(items.subrange(0, i as int), sparse_interval as int)),
            decreases entries.len() - i,
        {
            let entry = &entries[i];
            if entry.key.len() > u32::MAX as usize {
                assert(!item_encodable(items[i as int]));
                return None;
            }
            let offset = data.len();
            proof {
                let next = items.subrange(0, i + 1);
                assert(next.drop_last() =~= items.subrange(0, i as int));
                assert(next.last() == items[i as int]);
                assert(next.subrange(0, i as int) =~= items.subrange(0, i as int));
                assert(item_of(*entry) == items[i as int]);
            }
            if i % sparse_interval == 0 {
                SparseIndex::write_mark(&mut index, entry.key.as_slice(), offset);
                proof {
                    let next = items.subrange(0, i + 1);
                    let earlier = sparse_marks(items.subrange(0, i as int), sparse_interval as int);
                    let marks = sparse_marks(next, sparse_interval as int);
                    assert(marks == earlier.push(mark_for(next, i as int)));
                    assert(marks.drop_last() =~= earlier);
                    assert(mark_for(next, i as int) == (Mark { key: entry.key@, offset }));
                }
            }
            Self::write_entry(&mut data, entry);
            i += 1;
        }
        assert(items.subrange(0, i as int) =~= items);
        Some(SstFiles { data, index })
    }

    /// The entry that starts at `at` in `data`, with the offset just behind
    /// it; `None` where no whole well-formed entry stands there.
    pub fn read_entry(data: &[u8], at: usize) -> (r: Option<(Entry<Vec<u8>, usize>, usize)>)
        ensures
            r is Some <==> item_at(data@, at as int) is Some,
            r matches Some((entry, next)) ==> item_at(data@, at as int) == Some(item_of(entry))
                && next == at + item_len(item_of(entry)),
    {
        let total = data.len();
        if total < SST_ENTRY_OVERHEAD || at > total - SST_ENTRY_OVERHEAD {
            return None;
        }
        let key_len = read_u32_le(data, at) as usize;
        if key_len > total - SST_ENTRY_OVERHEAD - at {
            return None;
        }
        let behind = at + 4 + key_len;
        let flag = data[behind + 16];
        let raw_offset = read_u64_le(data, behind);
        if flag > 1 || raw_offset > usize::MAX as u64 {
            return None;
        }
        let key = read_bytes(data, at + 4, key_len);
        let created_at = read_u64_le(data, behind + 8);
        Some(
            (
                Entry { key, val_offset: raw_offset as usize, created_at, is_tombstone: flag == 1 },
                behind + SST_ENTRY_TRAILER,
            ),
        )
    }

    /// The entries of a data file, in order, up to the first place where no
    /// whole well-formed entry stands.
    pub fn read_all(data: &[u8]) -> (r: Vec<Entry<Vec<u8>, usize>>)
        ensures
            items_of(r@) == items_from(data@, 0),
    {
        let mut out: Vec<Entry<Vec<u8>, usize>> = Vec::new();
        let mut at: usize = 0;
        loop
            invariant
                items_of(out@) + items_from(data@, at as int) == items_from(data@, 0),
            decreases data@.len() - at,
        {
            let ghost before = out@;
            match Self::read_entry(data, at) {
                Some((entry, next)) => {
                    let ghost item = item_of(entry);
                    proof {
                        assert(items_from(data@, at as int) =~= seq![item] + items_from(
                            data@,
                            next as int,
                        ));
                    }
                    out.push(entry);
                    proof {
                        assert(items_of(out@) =~= items_of(before).push(item));
                        assert(items_of(out@) + items_from(data@, next as int) =~= items_of(before)
                            + items_from(data@, at as int));
                    }
                    at = next;
                },
                None => {
                    proof {
                        assert(items_from(data@, at as int) =~= Seq::empty());
                        assert(items_of(out@) =~= items_from(data@, 0));
                    }
                    return out;
                },
            }
        }
    }

    /// Looks for `key` in a data file, scanning forward from `block_offset`:
    /// stops at the entry of `key`, or at the first larger key, or where the
    /// entries end.
    pub fn get(data: &[u8], block_offset: usize, key: &[u8]) -> (r: Option<IndexValue>)
        ensures
            r == scan(data@, block_offset as int, key@),
    {
        let mut at: usize = block_offset;
        loop
            invariant
                scan(data@, at as int, key@) == scan(data@, block_offset as int, key@),
            decreases data@.len() - at,
        {
            match Self::read_entry(data, at) {
                None => {
                    return None;
                },
                Some((entry, next)) => {
                    match key_order(key, entry.key.as_slice()) {
                        KeyOrder::Equal => {
                            return Some((entry.val_offset, entry.created_at, entry.is_tombstone));
                        },
                        KeyOrder::Less => {
                            return None;
                        },
                        KeyOrder::Greater => {
                            at = next;
                        },
                    }
                },
            }
        }
    }

    /// The entry stored for `key` among `entries`, if there is one: the first
    /// in their order.
    pub fn get_value_from_index(entries: &Vec<Entry<Vec<u8>, usize>>, key: &[u8]) -> (r: Option<
        IndexValue,
    >)
        ensures
            r is Some <==> exists|i: int|
                0 <= i < entries@.len() && (#[trigger] entries@[i]).key@ == key@,
            r matches Some(v) ==> exists|i: int|
                0 <= i < entries@.len() && (#[trigger] entries@[i]).key@ == key@ && v == item_value(
                    item_of(entries@[i]),
                ) && forall|j: int| 0 <= j < i ==> (#[trigger] entries@[j]).key@ != key@,
    {
        let mut i: usize = 0;
        while i < entries.len()
            invariant
                i <= entries@.len(),
                forall|j: int| 0 <= j < i ==> (#[trigger] entries@[j]).key@ != key@,
            decreases entries.len() - i,
        {
            if crate::keys::key_is_eq(entries[i].key.as_slice(), key) {
                return Some((entries[i].val_offset, entries[i].created_at, entries[i].is_tombstone));
            }
            i += 1;
        }
        None
    }
}

} // verus!
