//! The queue of sealed memtables that wait to be flushed: an insertion-ordered
//! map from memtable identifier to memtable, oldest first. Nothing of the map
//! itself is proved here; each function below states what the corresponding
//! method of the map does.

use crate::keys::key_is_eq;
use crate::memtable::inmemory::InMemoryTable;
use indexmap::IndexMap;
use vstd::prelude::*;

verus! {

/// `indexmap::IndexMap`, carried as a value that is not looked into.
#[verifier::external_type_specification]
#[verifier::external_body]
#[verifier::reject_recursive_types(K)]
#[verifier::reject_recursive_types(V)]
#[verifier::reject_recursive_types(S)]
pub struct ExIndexMap<K, V, S>(IndexMap<K, V, S>);

/// The queue of sealed memtables.
pub type SealedTables = IndexMap<Vec<u8>, InMemoryTable>;

/// The identifiers and tables that the map holds, in insertion order.
pub uninterp spec fn sealed_tables(m: IndexMap<Vec<u8>, InMemoryTable>) -> Seq<(Seq<u8>, InMemoryTable)>;

/// The queue without any table.
pub open spec fn no_tables() -> Seq<(Seq<u8>, InMemoryTable)> {
    Seq::empty()
}

/// Whether one of `tables` goes by `id`.
pub open spec fn has_id(tables: Seq<(Seq<u8>, InMemoryTable)>, id: Seq<u8>) -> bool {
    exists|i: int| 0 <= i < tables.len() && (#[trigger] tables[i]).0 == id
}

/// Whether `i` is the first place in `tables` of a table that goes by `id`.
pub open spec fn is_first_with_id(tables: Seq<(Seq<u8>, InMemoryTable)>, id: Seq<u8>, i: int) -> bool {
    &&& 0 <= i < tables.len()
    &&& tables[i].0 == id
    &&& forall|j: int| 0 <= j < i ==> (#[trigger] tables[j]).0 != id
}

/// The first place in `tables` of a table that goes by `id`.
pub open spec fn first_with_id(tables: Seq<(Seq<u8>, InMemoryTable)>, id: Seq<u8>) -> int {
    choose|i: int| is_first_with_id(tables, id, i)
}

/// The first place of a table that goes by `id` is one place: whatever place
/// is the first is the place that `first_with_id` names.
pub proof fn lemma_first_with_id(tables: Seq<(Seq<u8>, InMemoryTable)>, id: Seq<u8>, i: int)
    requires
        is_first_with_id(tables, id, i),
    ensures
        first_with_id(tables, id) == i,
{
    let j = first_with_id(tables, id);
    assert(is_first_with_id(tables, id, j));
    if j < i {
        assert(tables[j].0 != id);
    } else if i < j {
        assert(tables[i].0 != id);
    }
}

/// The position of the table that goes by `id`.
pub open spec fn position_of_id(tables: Seq<(Seq<u8>, InMemoryTable)>, id: Seq<u8>) -> int {
    choose|i: int| 0 <= i < tables.len() && (#[trigger] tables[i]).0 == id
}

/// `tables` after a table was inserted under `id`: in the place of the table
/// that went by `id`, or else behind all others.
pub open spec fn with_table(
    tables: Seq<(Seq<u8>, InMemoryTable)>,
    id: Seq<u8>,
    table: InMemoryTable,
) -> Seq<(Seq<u8>, InMemoryTable)> {
    if has_id(tables, id) {
        tables.update(position_of_id(tables, id), (id, table))
    } else {
        tables.push((id, table))
    }
}

/// `IndexMap::new`: a map that holds nothing.
#[verifier::external_body]
pub(crate) fn sealed_new() -> (m: IndexMap<Vec<u8>, InMemoryTable>)
    ensures
        sealed_tables(m) == no_tables(),
{
    IndexMap::new()
}

/// `IndexMap::len`: the number of pairs in the map.
#[verifier::external_body]
pub(crate) fn sealed_len(m: &IndexMap<Vec<u8>, InMemoryTable>) -> (r: usize)
    ensures
        r == sealed_tables(*m).len(),
{
    m.len()
}

/// `IndexMap::insert`: where the key is in the map, its value is replaced and
/// the pair keeps its place; where it is not, the pair goes behind all
/// others.
#[verifier::external_body]
pub(crate) fn sealed_insert(m: &mut IndexMap<Vec<u8>, InMemoryTable>, id: Vec<u8>, table: InMemoryTable)
    ensures
        sealed_tables(*final(m)) == with_table(sealed_tables(*old(m)), id@, table),
{
    m.insert(id, table);
}

/// `IndexMap::get_index`: the pair at position `i` in insertion order.
#[verifier::external_body]
pub(crate) fn sealed_get_index(m: &IndexMap<Vec<u8>, InMemoryTable>, i: usize) -> (r: (
    &Vec<u8>,
    &InMemoryTable,
))
    requires
        i < sealed_tables(*m).len(),
    ensures
        r.0@ == sealed_tables(*m)[i as int].0,
        *r.1 == sealed_tables(*m)[i as int].1,
{
    m.get_index(i).unwrap()
}

/// `IndexMap::shift_remove_index`: takes the pair at position `i` out of the
/// map; the pairs behind it move up by one and keep their order.
#[verifier::external_body]
pub(crate) fn sealed_shift_remove_index(m: &mut IndexMap<Vec<u8>, InMemoryTable>, i: usize) -> (r: (
    Vec<u8>,
    InMemoryTable,
))
    requires
        i < sealed_tables(*old(m)).len(),
    ensures
        r.0@ == sealed_tables(*old(m))[i as int].0,
        r.1 == sealed_tables(*old(m))[i as int].1,
        sealed_tables(*final(m)) == sealed_tables(*old(m)).remove(i as int),
{
    m.shift_remove_index(i).unwrap()
}

/// The place in the queue of the table that goes by `id`.
pub fn find_sealed(m: &IndexMap<Vec<u8>, InMemoryTable>, id: &Vec<u8>) -> (r: Option<usize>)
    ensures
        r is Some <==> has_id(sealed_tables(*m), id@),
        r matches Some(i) ==> i < sealed_tables(*m).len() && sealed_tables(*m)[i as int].0 == id@
            && forall|j: int| 0 <= j < i ==> (#[trigger] sealed_tables(*m)[j]).0 != id@,
{
    let n = sealed_len(m);
    let mut i: usize = 0;
    while i < n
        invariant
            i <= n,
            n == sealed_tables(*m).len(),
            forall|j: int| 0 <= j < i ==> (#[trigger] sealed_tables(*m)[j]).0 != id@,
        decreases n - i,
    {
        let (here, _) = sealed_get_index(m, i);
        if key_is_eq(here.as_slice(), id.as_slice()) {
            return Some(i);
        }
        i += 1;
    }
    None
}

} // verus!
