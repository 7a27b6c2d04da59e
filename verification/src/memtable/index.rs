//! The ordered map behind a memtable: a lock-free skip list keyed by byte
//! strings. Nothing of the skip list itself is proved here; each function
//! below states what the corresponding method of the map does.

use crate::keys::{key_le, key_lt};
use crate::memtable::inmemory::Entry;
use crossbeam_skiplist::SkipMap;
use vstd::prelude::*;

verus! {

/// What a memtable stores for a key: the offset of its record in the value
/// log, the record's creation time and whether the record is a tombstone.
pub type IndexValue = (usize, u64, bool);

/// `crossbeam_skiplist::SkipMap`, carried as a value that is not looked into.
#[verifier::external_type_specification]
#[verifier::external_body]
#[verifier::reject_recursive_types(K)]
#[verifier::reject_recursive_types(V)]
pub struct ExSkipMap<K, V>(SkipMap<K, V>);

/// The key-value pairs that a skip map holds.
pub uninterp spec fn index_contents(m: SkipMap<Vec<u8>, IndexValue>) -> Map<Seq<u8>, IndexValue>;

/// The map without any pair.
pub open spec fn empty_index() -> Map<Seq<u8>, IndexValue> {
    Map::empty()
}

/// What `entry` stores under its key.
pub open spec fn value_of(entry: Entry<Vec<u8>, usize>) -> IndexValue {
    (entry.val_offset, entry.created_at, entry.is_tombstone)
}

/// `entries` lists exactly the pairs of `m`, in strictly ascending key order.
pub open spec fn lists_in_order(entries: Seq<Entry<Vec<u8>, usize>>, m: Map<Seq<u8>, IndexValue>) -> bool {
    &&& forall|i: int|
        0 <= i < entries.len() ==> m.dom().contains(#[trigger] entries[i].key@) && m[entries[i].key@]
            == value_of(entries[i])
    &&& forall|i: int, j: int|
        0 <= i < j < entries.len() ==> key_lt(#[trigger] entries[i].key@, #[trigger] entries[j].key@)
    &&& forall|k: Seq<u8>| #[trigger]
        m.dom().contains(k) ==> exists|i: int| 0 <= i < entries.len() && entries[i].key@ == k
}

/// `SkipMap::new`: a map that holds nothing.
#[verifier::external_body]
pub(crate) fn index_new() -> (m: SkipMap<Vec<u8>, IndexValue>)
    ensures
        index_contents(m) == empty_index(),
{
    SkipMap::new()
}

/// `SkipMap::insert`: afterwards the map holds `value` under `key`, in place
/// of whatever it held under that key, and every other pair as before.
#[verifier::external_body]
pub(crate) fn index_insert(m: &mut SkipMap<Vec<u8>, IndexValue>, key: Vec<u8>, value: IndexValue)
    ensures
        index_contents(*final(m)) == index_contents(*old(m)).insert(key@, value),
{
    m.insert(key, value);
}

/// `SkipMap::get`: the value held under `key`, if there is one.
#[verifier::external_body]
pub(crate) fn index_get(m: &SkipMap<Vec<u8>, IndexValue>, key: &Vec<u8>) -> (r: Option<IndexValue>)
    ensures
        r == (if index_contents(*m).dom().contains(key@) {
            Some(index_contents(*m)[key@])
        } else {
            None
        }),
{
    m.get(key).map(|e| *e.value())
}

/// `SkipMap::front`: the smallest key in the map in the order of `Vec<u8>`,
/// which is lexicographic; `None` where the map is empty.
#[verifier::external_body]
pub(crate) fn index_front(m: &SkipMap<Vec<u8>, IndexValue>) -> (r: Option<Vec<u8>>)
    ensures
        r is None ==> index_contents(*m) == empty_index(),
        r matches Some(b) ==> index_contents(*m).dom().contains(b@) && forall|k: Seq<u8>|
            index_contents(*m).dom().contains(k) ==> key_le(b@, k),
{
    m.front().map(|e| e.key().clone())
}

/// `SkipMap::back`: the largest key in the map in the order of `Vec<u8>`,
/// which is lexicographic; `None` where the map is empty.
#[verifier::external_body]
pub(crate) fn index_back(m: &SkipMap<Vec<u8>, IndexValue>) -> (r: Option<Vec<u8>>)
    ensures
        r is None ==> index_contents(*m) == empty_index(),
        r matches Some(b) ==> index_contents(*m).dom().contains(b@) && forall|k: Seq<u8>|
            index_contents(*m).dom().contains(k) ==> key_le(k, b@),
{
    m.back().map(|e| e.key().clone())
}

/// `SkipMap::clear`: afterwards the map holds nothing.
#[verifier::external_body]
pub(crate) fn index_clear(m: &mut SkipMap<Vec<u8>, IndexValue>)
    ensures
        index_contents(*final(m)) == empty_index(),
{
    m.clear();
}

/// `SkipMap::iter`: every pair of the map, once, in ascending key order. Each
/// pair is handed out as an entry of its own.
#[verifier::external_body]
pub(crate) fn index_entries(m: &SkipMap<Vec<u8>, IndexValue>) -> (r: Vec<Entry<Vec<u8>, usize>>)
    ensures
        lists_in_order(r@, index_contents(*m)),
{
    m.iter().map(|e| Entry::new(e.key().clone(), e.value().0, e.value().1, e.value().2)).collect()
}

} // verus!
