//! The merge at the heart of compaction: several sorted tables become one
//! that keeps, for every key, only the newest entry, and drops what has
//! expired.

use crate::keys::{
    clone_key, key_lt, key_order, lemma_key_lt_asymmetric, lemma_key_lt_irreflexive,
    lemma_key_lt_transitive, KeyOrder,
};
use crate::memtable::inmemory::Entry;
use crate::sstable::sst::{item_of, items_of, strictly_ascending, Item};
use vstd::prelude::*;

verus! {

/// Whether one of `items` has the key `key`.
pub open spec fn has_key(items: Seq<Item>, key: Seq<u8>) -> bool {
    exists|i: int| 0 <= i < items.len() && (#[trigger] items[i]).key == key
}

/// The first of `items` with the key `key`.
pub open spec fn item_for(items: Seq<Item>, key: Seq<u8>) -> Item {
    items[choose|i: int| 0 <= i < items.len() && (#[trigger] items[i]).key == key]
}

/// The entries of a table by key.
pub open spec fn by_key(items: Seq<Item>) -> Map<Seq<u8>, Item> {
    Map::new(|k: Seq<u8>| has_key(items, k), |k: Seq<u8>| item_for(items, k))
}

/// Of two entries for one key, the one that stands: the one created later,
/// and `first` where both were created at the same time.
pub open spec fn newer_of(first: Item, second: Item) -> Item {
    if second.created_at > first.created_at {
        second
    } else {
        first
    }
}

/// For every key of either table the entry that stands.
pub open spec fn merged(first: Map<Seq<u8>, Item>, second: Map<Seq<u8>, Item>) -> Map<
    Seq<u8>,
    Item,
> {
    Map::new(
        |k: Seq<u8>| first.dom().contains(k) || second.dom().contains(k),
        |k: Seq<u8>|
            if first.dom().contains(k) && second.dom().contains(k) {
                newer_of(first[k], second[k])
            } else if first.dom().contains(k) {
                first[k]
            } else {
                second[k]
            },
    )
}

/// For every key of any of `tables` the entry that stands, earlier tables
/// winning over later ones where the creation times are equal.
pub open spec fn merged_all(tables: Seq<Seq<Item>>) -> Map<Seq<u8>, Item>
    decreases tables.len(),
{
    if tables.len() == 0 {
        Map::empty()
    } else {
        merged(merged_all(tables.drop_last()), by_key(tables.last()))
    }
}

/// When and how entries expire.
#[derive(Clone, Copy, Debug)]
pub struct Expiry {
    /// The time of the compaction, in milliseconds.
    pub now: u64,
    /// How long a tombstone is kept, in milliseconds.
    pub tombstone_gc_grace_millis: u64,
    /// Whether entries have a time to live.
    pub enable_ttl: bool,
    /// The time to live of an entry, in milliseconds.
    pub entry_ttl_millis: u64,
}

/// Whether compaction keeps `item`: not a tombstone past its grace period,
/// and not an entry past its time to live.
pub open spec fn survives(item: Item, expiry: Expiry) -> bool {
    &&& !(item.is_tombstone && item.created_at + expiry.tombstone_gc_grace_millis < expiry.now)
    &&& !(expiry.enable_ttl && item.created_at + expiry.entry_ttl_millis < expiry.now)
}

/// Those of `items` that compaction keeps, in their order.
pub open spec fn survivors(items: Seq<Item>, expiry: Expiry) -> Seq<Item>
    decreases items.len(),
{
    if items.len() == 0 {
        Seq::empty()
    } else if survives(items.last(), expiry) {
        survivors(items.drop_last(), expiry).push(items.last())
    } else {
        survivors(items.drop_last(), expiry)
    }
}

/// Every key of `items` sorts before `key`.
pub open spec fn all_before(items: Seq<Item>, key: Seq<u8>) -> bool {
    forall|i: int| 0 <= i < items.len() ==> key_lt((#[trigger] items[i]).key, key)
}

/// In a table with strictly ascending keys, each key has one entry: the entry
/// found for a key is the entry at any position that has the key.
pub proof fn lemma_item_for_unique(items: Seq<Item>, i: int)
    requires
        strictly_ascending(items),
        0 <= i < items.len(),
    ensures
        has_key(items, items[i].key),
        item_for(items, items[i].key) == items[i],
{
    let key = items[i].key;
    let j = choose|j: int| 0 <= j < items.len() && (#[trigger] items[j]).key == key;
    if j < i {
        assert(key_lt(items[j].key, items[i].key));
        lemma_key_lt_irreflexive(key);
    } else if i < j {
        assert(key_lt(items[i].key, items[j].key));
        lemma_key_lt_irreflexive(key);
    }
}

/// An entry whose key sorts behind every key of a table is a new key of the
/// table, and the table stays ascending with the entry at its end.
pub proof fn lemma_push_behind(items: Seq<Item>, item: Item)
    requires
        strictly_ascending(items),
        all_before(items, item.key),
    ensures
        strictly_ascending(items.push(item)),
        by_key(items.push(item)) == by_key(items).insert(item.key, item),
        !has_key(items, item.key),
{
    let longer = items.push(item);
    assert forall|i: int, j: int| 0 <= i < j < longer.len() implies key_lt(
        (#[trigger] longer[i]).key,
        (#[trigger] longer[j]).key,
    ) by {
        if j < items.len() {
            assert(longer[i] == items[i]);
            assert(longer[j] == items[j]);
        } else {
            assert(longer[i] == items[i]);
        }
    }
    if has_key(items, item.key) {
        let j = choose|j: int| 0 <= j < items.len() && (#[trigger] items[j]).key == item.key;
        assert(key_lt(items[j].key, item.key));
        lemma_key_lt_irreflexive(item.key);
    }
    assert forall|k: Seq<u8>| has_key(longer, k) <==> (k == item.key || has_key(items, k)) by {
        if has_key(longer, k) {
            let j = choose|j: int| 0 <= j < longer.len() && (#[trigger] longer[j]).key == k;
            if j < items.len() {
                assert(items[j].key == k);
            }
        }
        if has_key(items, k) {
            let j = choose|j: int| 0 <= j < items.len() && (#[trigger] items[j]).key == k;
            assert(longer[j].key == k);
        }
        if k == item.key {
            assert(longer[items.len() as int].key == k);
        }
    }
    assert forall|k: Seq<u8>| has_key(longer, k) implies #[trigger] by_key(longer)[k] == by_key(
        items,
    ).insert(item.key, item)[k] by {
        let j = choose|j: int| 0 <= j < longer.len() && (#[trigger] longer[j]).key == k;
        lemma_item_for_unique(longer, j);
        if j < items.len() {
            assert(items[j] == longer[j]);
            lemma_item_for_unique(items, j);
        }
    }
    assert(by_key(longer) =~= by_key(items).insert(item.key, item));
}

/// A table cut off before position `n` holds, by key, what the table cut off
/// behind position `n` holds without the entry at `n`.
pub proof fn lemma_prefix_step(items: Seq<Item>, n: int)
    requires
        strictly_ascending(items),
        0 <= n < items.len(),
    ensures
        strictly_ascending(items.subrange(0, n)),
        all_before(items.subrange(0, n), items[n].key),
        items.subrange(0, n + 1) == items.subrange(0, n).push(items[n]),
        by_key(items.subrange(0, n + 1)) == by_key(items.subrange(0, n)).insert(
            items[n].key,
            items[n],
        ),
        !has_key(items.subrange(0, n), items[n].key),
{
    let shorter = items.subrange(0, n);
    assert forall|i: int, j: int| 0 <= i < j < shorter.len() implies key_lt(
        (#[trigger] shorter[i]).key,
        (#[trigger] shorter[j]).key,
    ) by {
        assert(shorter[i] == items[i]);
        assert(shorter[j] == items[j]);
    }
    assert forall|i: int| 0 <= i < shorter.len() implies key_lt(
        (#[trigger] shorter[i]).key,
        items[n].key,
    ) by {
        assert(shorter[i] == items[i]);
    }
    assert(items.subrange(0, n + 1) =~= shorter.push(items[n]));
    lemma_push_behind(shorter, items[n]);
}

/// A copy of `entry`.
pub fn copy_entry(entry: &Entry<Vec<u8>, usize>) -> (r: Entry<Vec<u8>, usize>)
    ensures
        item_of(r) == item_of(*entry),
{
    Entry {
        key: clone_key(&entry.key),
        val_offset: entry.val_offset,
        created_at: entry.created_at,
        is_tombstone: entry.is_tombstone,
    }
}

/// Whether the keys of `entries` ascend strictly.
pub fn is_ascending(entries: &Vec<Entry<Vec<u8>, usize>>) -> (r: bool)
    ensures
        r == strictly_ascending(items_of(entries@)),
{
    let ghost items = items_of(entries@);
    if entries.len() < 2 {
        return true;
    }
    let mut i: usize = 1;
    while i < entries.len()
        invariant
            1 <= i <= entries@.len(),
            items == items_of(entries@),
            forall|a: int, b: int|
                0 <= a < b < i ==> key_lt((#[trigger] items[a]).key, (#[trigger] items[b]).key),
        decreases entries.len() - i,
    {
        match key_order(entries[i - 1].key.as_slice(), entries[i].key.as_slice()) {
            KeyOrder::Less => {
                proof {
                    assert(items[i - 1].key == entries@[i - 1].key@);
                    assert(items[i as int].key == entries@[i as int].key@);
                    assert forall|a: int, b: int| 0 <= a < b < i + 1 implies key_lt(
                        (#[trigger] items[a]).key,
                        (#[trigger] items[b]).key,
                    ) by {
                        if b == i && a < i - 1 {
                            assert(key_lt(items[a].key, items[i - 1].key));
                            lemma_key_lt_transitive(
                                items[a].key,
                                items[i - 1].key,
                                items[i as int].key,
                            );
                        }
                    }
                }
            },
            _ => {
                proof {
                    assert(items[i - 1].key == entries@[i - 1].key@);
                    assert(items[i as int].key == entries@[i as int].key@);
                    if strictly_ascending(items) {
                        assert(key_lt(items[i - 1].key, items[i as int].key));
                        if items[i - 1].key != items[i as int].key {
                            lemma_key_lt_asymmetric(items[i - 1].key, items[i as int].key);
                        } else {
                            lemma_key_lt_irreflexive(items[i - 1].key);
                        }
                    }
                }
                return false;
            },
        }
        i += 1;
    }
    true
}

/// Merges two tables with strictly ascending keys into one: every key of
/// either, once, with the entry that stands, in ascending key order.
#[verifier::rlimit(30)]
pub fn merge_two(first: &Vec<Entry<Vec<u8>, usize>>, second: &Vec<Entry<Vec<u8>, usize>>) -> (r: Vec<
    Entry<Vec<u8>, usize>,
>)
    requires
        strictly_ascending(items_of(first@)),
        strictly_ascending(items_of(second@)),
    ensures
        strictly_ascending(items_of(r@)),
        by_key(items_of(r@)) == merged(by_key(items_of(first@)), by_key(items_of(second@))),
{
    let ghost a = items_of(first@);
    let ghost b = items_of(second@);
    let mut out: Vec<Entry<Vec<u8>, usize>> = Vec::new();
    let mut i: usize = 0;
    let mut j: usize = 0;
    proof {
        assert(by_key(items_of(out@)) =~= merged(
            by_key(a.subrange(0, 0)),
            by_key(b.subrange(0, 0)),
        ));
    }
    while i < first.len() || j < second.len()
        invariant
            i <= first@.len(),
            j <= second@.len(),
            a == items_of(first@),
            b == items_of(second@),
            strictly_ascending(a),
            strictly_ascending(b),
            strictly_ascending(items_of(out@)),
            i < a.len() ==> all_before(items_of(out@), a[i as int].key),
            j < b.len() ==> all_before(items_of(out@), b[j as int].key),
            i < a.len() ==> all_before(b.subrange(0, j as int), a[i as int].key),
            j < b.len() ==> all_before(a.subrange(0, i as int), b[j as int].key),
            by_key(items_of(out@)) == merged(
                by_key(a.subrange(0, i as int)),
                by_key(b.subrange(0, j as int)),
            ),
        decreases (first.len() - i) + (second.len() - j),
    {
        let ghost done = items_of(out@);
        let ghost ma = by_key(a.subrange(0, i as int));
        let ghost mb = by_key(b.subrange(0, j as int));
        let take_first: bool;
        let take_second: bool;
        if i >= first.len() {
            take_first = false;
            take_second = true;
        } else if j >= second.len() {
            take_first = true;
            take_second = false;
        } else {
            match key_order(first[i].key.as_slice(), second[j].key.as_slice()) {
                KeyOrder::Less => {
                    take_first = true;
                    take_second = false;
                },
                KeyOrder::Greater => {
                    take_first = false;
                    take_second = true;
                },
                KeyOrder::Equal => {
                    take_first = true;
                    take_second = true;
                },
            }
        }
        proof {
            if i < a.len() {
                assert(a[i as int].key == first@[i as int].key@);
                lemma_prefix_step(a, i as int);
            }
            if j < b.len() {
                assert(b[j as int].key == second@[j as int].key@);
                lemma_prefix_step(b, j as int);
            }
        }
        if take_first && take_second {
            let picked = if second[j].created_at > first[i].created_at {
                copy_entry(&second[j])
            } else {
                copy_entry(&first[i])
            };
            let ghost item = item_of(picked);
            let ghost key = a[i as int].key;
            proof {
                assert(item == newer_of(a[i as int], b[j as int]));
                assert(item.key == key);
                lemma_push_behind(done, item);
                lemma_push_behind(b.subrange(0, j as int), b[j as int]);
                lemma_push_behind(a.subrange(0, i as int), a[i as int]);
                assert(merged(ma.insert(key, a[i as int]), mb.insert(key, b[j as int])) =~= merged(
                    ma,
                    mb,
                ).insert(key, item));
            }
            out.push(picked);
            proof {
                assert(items_of(out@) =~= done.push(item));
                lemma_prefix_at_most(a, i as int);
                lemma_prefix_at_most(b, j as int);
                if i + 1 < a.len() {
                    assert(key_lt(a[i as int].key, a[i + 1].key));
                }
                if j + 1 < b.len() {
                    assert(key_lt(b[j as int].key, b[j + 1].key));
                }
                lemma_step_bounds(a, b, items_of(out@), done, item, i + 1, j + 1);
            }
            i += 1;
            j += 1;
        } else if take_first {
            let picked = copy_entry(&first[i]);
            let ghost item = item_of(picked);
            let ghost key = a[i as int].key;
            proof {
                assert(item == a[i as int]);
                lemma_push_behind(done, item);
                lemma_push_behind(b.subrange(0, j as int), item);
                assert(!mb.dom().contains(key));
                assert(merged(ma.insert(key, item), mb) =~= merged(ma, mb).insert(key, item));
            }
            out.push(picked);
            proof {
                assert(items_of(out@) =~= done.push(item));
                lemma_prefix_at_most(a, i as int);
                lemma_before_then_at_most(b.subrange(0, j as int), key);
                if i + 1 < a.len() {
                    assert(key_lt(a[i as int].key, a[i + 1].key));
                }
                lemma_step_bounds(a, b, items_of(out@), done, item, i + 1, j as int);
            }
            i += 1;
        } else {
            let picked = copy_entry(&second[j]);
            let ghost item = item_of(picked);
            let ghost key = b[j as int].key;
            proof {
                assert(item == b[j as int]);
                if i < a.len() {
                    lemma_key_order_greater(a[i as int].key, key);
                }
                lemma_push_behind(done, item);
                lemma_push_behind(a.subrange(0, i as int), item);
                assert(!ma.dom().contains(key));
                assert(merged(ma, mb.insert(key, item)) =~= merged(ma, mb).insert(key, item));
            }
            out.push(picked);
            proof {
                assert(items_of(out@) =~= done.push(item));
                lemma_prefix_at_most(b, j as int);
                lemma_before_then_at_most(a.subrange(0, i as int), key);
                if j + 1 < b.len() {
                    assert(key_lt(b[j as int].key, b[j + 1].key));
                }
                lemma_step_bounds(a, b, items_of(out@), done, item, i as int, j + 1);
            }
            j += 1;
        }
    }
    proof {
        assert(a.subrange(0, i as int) =~= a);
        assert(b.subrange(0, j as int) =~= b);
    }
    out
}

/// Of two different keys of which the first does not sort before the second,
/// the second sorts before the first.
pub proof fn lemma_key_order_greater(a: Seq<u8>, b: Seq<u8>)
    requires
        crate::keys::key_order_of(a, b) == KeyOrder::Greater,
    ensures
        key_lt(b, a),
{
    crate::keys::lemma_key_le_total(a, b);
}

/// Every key of `items` is `key` or sorts before it.
pub open spec fn all_at_most(items: Seq<Item>, key: Seq<u8>) -> bool {
    forall|i: int|
        0 <= i < items.len() ==> (#[trigger] items[i]).key == key || key_lt(items[i].key, key)
}

/// Keys that are at most `key` sort before every key that `key` sorts before.
pub proof fn lemma_at_most_then_before(items: Seq<Item>, key: Seq<u8>, later: Seq<u8>)
    requires
        all_at_most(items, key),
        key_lt(key, later),
    ensures
        all_before(items, later),
{
    assert forall|n: int| 0 <= n < items.len() implies key_lt((#[trigger] items[n]).key, later) by {
        if items[n].key != key {
            lemma_key_lt_transitive(items[n].key, key, later);
        }
    }
}

/// A table cut off behind position `n` has no key larger than the key at `n`.
pub proof fn lemma_prefix_at_most(items: Seq<Item>, n: int)
    requires
        strictly_ascending(items),
        0 <= n < items.len(),
    ensures
        all_at_most(items.subrange(0, n + 1), items[n].key),
{
    let upto = items.subrange(0, n + 1);
    assert forall|i: int| 0 <= i < upto.len() implies (#[trigger] upto[i]).key == items[n].key
        || key_lt(upto[i].key, items[n].key) by {
        assert(upto[i] == items[i]);
        if i < n {
            assert(key_lt(items[i].key, items[n].key));
        }
    }
}

/// Keys that sort before `key` are at most `key`.
pub proof fn lemma_before_then_at_most(items: Seq<Item>, key: Seq<u8>)
    requires
        all_before(items, key),
    ensures
        all_at_most(items, key),
{
}

/// After the merge has taken `item`, whose key is the smallest key not yet
/// taken, everything taken sorts before what the two tables hold from
/// positions `i` and `j` on, and so does everything that lies before those
/// positions in the other table.
pub proof fn lemma_step_bounds(
    a: Seq<Item>,
    b: Seq<Item>,
    taken: Seq<Item>,
    done: Seq<Item>,
    item: Item,
    i: int,
    j: int,
)
    requires
        strictly_ascending(a),
        strictly_ascending(b),
        taken == done.push(item),
        0 <= i <= a.len(),
        0 <= j <= b.len(),
        i < a.len() ==> key_lt(item.key, a[i].key),
        j < b.len() ==> key_lt(item.key, b[j].key),
        all_before(done, item.key),
        all_at_most(a.subrange(0, i), item.key),
        all_at_most(b.subrange(0, j), item.key),
    ensures
        i < a.len() ==> all_before(taken, a[i].key),
        j < b.len() ==> all_before(taken, b[j].key),
        i < a.len() ==> all_before(b.subrange(0, j), a[i].key),
        j < b.len() ==> all_before(a.subrange(0, i), b[j].key),
{
    assert(all_at_most(taken, item.key)) by {
        assert forall|n: int| 0 <= n < taken.len() implies (#[trigger] taken[n]).key == item.key
            || key_lt(taken[n].key, item.key) by {
            if n < done.len() {
                assert(taken[n] == done[n]);
            }
        }
    }
    if i < a.len() {
        lemma_at_most_then_before(taken, item.key, a[i].key);
        lemma_at_most_then_before(b.subrange(0, j), item.key, a[i].key);
    }
    if j < b.len() {
        lemma_at_most_then_before(taken, item.key, b[j].key);
        lemma_at_most_then_before(a.subrange(0, i), item.key, b[j].key);
    }
}

/// What `tables` stand for, table by table.
pub open spec fn tables_of(tables: Seq<Vec<Entry<Vec<u8>, usize>>>) -> Seq<Seq<Item>> {
    Seq::new(tables.len(), |i: int| items_of(tables[i]@))
}

/// Every one of `tables` has strictly ascending keys.
pub open spec fn all_ascending(tables: Seq<Seq<Item>>) -> bool {
    forall|t: int| 0 <= t < tables.len() ==> strictly_ascending(#[trigger] tables[t])
}

/// What compaction leaves of `tables`: for every key the entry that stands,
/// unless it has expired.
pub open spec fn standing(tables: Seq<Seq<Item>>, expiry: Expiry) -> Map<Seq<u8>, Item> {
    Map::new(
        |k: Seq<u8>| merged_all(tables).dom().contains(k) && survives(merged_all(tables)[k], expiry),
        |k: Seq<u8>| merged_all(tables)[k],
    )
}

/// Whether an entry created at `created_at` survives a compaction.
pub fn entry_survives(created_at: u64, is_tombstone: bool, expiry: &Expiry) -> (r: bool)
    ensures
        r == survives(
            (Item { key: Seq::empty(), val_offset: 0, created_at, is_tombstone }),
            *expiry,
        ),
{
    let tombstone_due = is_tombstone && match created_at.checked_add(
        expiry.tombstone_gc_grace_millis,
    ) {
        Some(deadline) => deadline < expiry.now,
        None => false,
    };
    let entry_due = expiry.enable_ttl && match created_at.checked_add(expiry.entry_ttl_millis) {
        Some(deadline) => deadline < expiry.now,
        None => false,
    };
    !tombstone_due && !entry_due
}

/// Drops the entries that have expired and keeps the others in their order.
pub fn purge(entries: Vec<Entry<Vec<u8>, usize>>, expiry: &Expiry) -> (r: Vec<Entry<Vec<u8>, usize>>)
    ensures
        items_of(r@) == survivors(items_of(entries@), *expiry),
{
    let ghost items = items_of(entries@);
    let mut out: Vec<Entry<Vec<u8>, usize>> = Vec::new();
    let mut i: usize = 0;
    while i < entries.len()
        invariant
            i <= entries@.len(),
            items == items_of(entries@),
            items_of(out@) == survivors(items.subrange(0, i as int), *expiry),
        decreases entries.len() - i,
    {
        let ghost before = items_of(out@);
        proof {
            let next = items.subrange(0, i + 1);
            assert(next.drop_last() =~= items.subrange(0, i as int));
            assert(next.last() == items[i as int]);
        }
        if entry_survives(entries[i].created_at, entries[i].is_tombstone, expiry) {
            let kept = copy_entry(&entries[i]);
            out.push(kept);
            assert(items_of(out@) =~= before.push(items[i as int]));
        }
        i += 1;
    }
    assert(items.subrange(0, i as int) =~= items);
    out
}

/// What survives of a table with strictly ascending keys has strictly
/// ascending keys, and holds by key what the table held, less what expired.
pub proof fn lemma_survivors(items: Seq<Item>, expiry: Expiry)
    requires
        strictly_ascending(items),
    ensures
        strictly_ascending(survivors(items, expiry)),
        forall|i: int|
            0 <= i < survivors(items, expiry).len() ==> has_key(
                items,
                (#[trigger] survivors(items, expiry)[i]).key,
            ) && item_for(items, survivors(items, expiry)[i].key) == survivors(items, expiry)[i]
                && survives(survivors(items, expiry)[i], expiry),
        forall|i: int|
            0 <= i < items.len() && survives(#[trigger] items[i], expiry) ==> has_key(
                survivors(items, expiry),
                items[i].key,
            ),
    decreases items.len(),
{
    if items.len() > 0 {
        let shorter = items.drop_last();
        let last = items.last();
        let n = items.len() - 1;
        assert(shorter =~= items.subrange(0, n));
        lemma_prefix_step(items, n);
        lemma_survivors(shorter, expiry);
        let kept = survivors(items, expiry);
        let kept_before = survivors(shorter, expiry);
        assert forall|i: int| 0 <= i < kept_before.len() implies key_lt(
            (#[trigger] kept_before[i]).key,
            last.key,
        ) && has_key(items, kept_before[i].key) && item_for(items, kept_before[i].key)
            == kept_before[i] by {
            let k = kept_before[i].key;
            assert(has_key(shorter, k));
            let j = choose|j: int| 0 <= j < shorter.len() && (#[trigger] shorter[j]).key == k;
            assert(shorter[j] == items[j]);
            assert(key_lt(items[j].key, items[n].key));
            lemma_item_for_unique(items, j);
            lemma_item_for_unique(shorter, j);
        }
        if survives(last, expiry) {
            lemma_push_behind(kept_before, last);
            lemma_item_for_unique(items, n);
            assert forall|i: int| 0 <= i < kept.len() implies has_key(
                items,
                (#[trigger] kept[i]).key,
            ) && item_for(items, kept[i].key) == kept[i] && survives(kept[i], expiry) by {
                if i < kept_before.len() {
                    assert(kept[i] == kept_before[i]);
                }
            }
            assert forall|i: int| 0 <= i < items.len() && survives(
                #[trigger] items[i],
                expiry,
            ) implies has_key(kept, items[i].key) by {
                if i < n {
                    assert(shorter[i] == items[i]);
                    assert(has_key(kept_before, shorter[i].key));
                    let j = choose|j: int|
                        0 <= j < kept_before.len() && (#[trigger] kept_before[j]).key
                            == items[i].key;
                    assert(kept[j] == kept_before[j]);
                } else {
                    assert(kept[kept.len() - 1].key == items[i].key);
                }
            }
        } else {
            assert forall|i: int| 0 <= i < items.len() && survives(
                #[trigger] items[i],
                expiry,
            ) implies has_key(kept, items[i].key) by {
                assert(shorter[i] == items[i]);
            }
        }
    }
}

/// Merges tables with strictly ascending keys into one: every key of any of
/// them, once, with the entry that stands, in ascending key order.
pub fn merge_all(tables: &Vec<Vec<Entry<Vec<u8>, usize>>>) -> (r: Vec<Entry<Vec<u8>, usize>>)
    requires
        all_ascending(tables_of(tables@)),
    ensures
        strictly_ascending(items_of(r@)),
        by_key(items_of(r@)) == merged_all(tables_of(tables@)),
{
    let ghost all = tables_of(tables@);
    let mut out: Vec<Entry<Vec<u8>, usize>> = Vec::new();
    proof {
        assert(by_key(items_of(out@)) =~= merged_all(all.subrange(0, 0)));
    }
    let mut t: usize = 0;
    while t < tables.len()
        invariant
            t <= tables@.len(),
            all == tables_of(tables@),
            all_ascending(all),
            strictly_ascending(items_of(out@)),
            by_key(items_of(out@)) == merged_all(all.subrange(0, t as int)),
        decreases tables.len() - t,
    {
        proof {
            let next = all.subrange(0, t + 1);
            assert(next.drop_last() =~= all.subrange(0, t as int));
            assert(next.last() == all[t as int]);
            assert(strictly_ascending(all[t as int]));
        }
        out = merge_two(&out, &tables[t]);
        t += 1;
    }
    assert(all.subrange(0, t as int) =~= all);
    out
}

/// Compacts tables with strictly ascending keys into one: merges them and
/// drops what has expired. The result has strictly ascending keys and holds,
/// for every key, the entry that stands among the inputs, unless that entry
/// has expired.
pub fn compact(tables: &Vec<Vec<Entry<Vec<u8>, usize>>>, expiry: &Expiry) -> (r: Vec<
    Entry<Vec<u8>, usize>,
>)
    requires
        all_ascending(tables_of(tables@)),
    ensures
        strictly_ascending(items_of(r@)),
        by_key(items_of(r@)) == standing(tables_of(tables@), *expiry),
{
    let merged_entries = merge_all(tables);
    let ghost all_items = items_of(merged_entries@);
    let out = purge(merged_entries, expiry);
    proof {
        let kept = items_of(out@);
        lemma_survivors(all_items, *expiry);
        let target = standing(tables_of(tables@), *expiry);
        assert forall|k: Seq<u8>| has_key(kept, k) <==> target.dom().contains(k) by {
            if has_key(kept, k) {
                let i = choose|i: int| 0 <= i < kept.len() && (#[trigger] kept[i]).key == k;
                assert(has_key(all_items, kept[i].key));
            }
            if target.dom().contains(k) {
                assert(has_key(all_items, k));
                let j = choose|j: int| 0 <= j < all_items.len() && (#[trigger] all_items[j]).key
                    == k;
                lemma_item_for_unique(all_items, j);
            }
        }
        assert forall|k: Seq<u8>| has_key(kept, k) implies #[trigger] by_key(kept)[k]
            == target[k] by {
            let i = choose|i: int| 0 <= i < kept.len() && (#[trigger] kept[i]).key == k;
            lemma_item_for_unique(kept, i);
        }
        assert(by_key(kept) =~= target);
    }
    out
}

/// No entry of any input is newer than the entry that stands for its key:
/// the merge of tables holds every key of every table, each with an entry
/// that was created no earlier than any entry of that key.
pub proof fn lemma_merged_all_newest(tables: Seq<Seq<Item>>, t: int, n: int)
    requires
        all_ascending(tables),
        0 <= t < tables.len(),
        0 <= n < tables[t].len(),
    ensures
        merged_all(tables).dom().contains(tables[t][n].key),
        merged_all(tables)[tables[t][n].key].created_at >= tables[t][n].created_at,
        merged_all(tables)[tables[t][n].key].key == tables[t][n].key,
    decreases tables.len(),
{
    let key = tables[t][n].key;
    let earlier = tables.drop_last();
    let last = tables.last();
    assert(strictly_ascending(last));
    assert forall|u: int| 0 <= u < earlier.len() implies strictly_ascending(
        #[trigger] earlier[u],
    ) by {
        assert(earlier[u] == tables[u]);
    }
    if t < tables.len() - 1 {
        assert(earlier[t] == tables[t]);
        lemma_merged_all_newest(earlier, t, n);
        if has_key(last, key) {
            let j = choose|j: int| 0 <= j < last.len() && (#[trigger] last[j]).key == key;
            lemma_item_for_unique(last, j);
        }
    } else {
        lemma_item_for_unique(last, n);
        if merged_all(earlier).dom().contains(key) {
            lemma_merged_all_keys(earlier, key);
        }
    }
}

/// The entry that stands for a key has that key.
pub proof fn lemma_merged_all_keys(tables: Seq<Seq<Item>>, key: Seq<u8>)
    requires
        all_ascending(tables),
        merged_all(tables).dom().contains(key),
    ensures
        merged_all(tables)[key].key == key,
    decreases tables.len(),
{
    if tables.len() > 0 {
        let earlier = tables.drop_last();
        let last = tables.last();
        assert(strictly_ascending(last));
        assert forall|u: int| 0 <= u < earlier.len() implies strictly_ascending(
            #[trigger] earlier[u],
        ) by {
            assert(earlier[u] == tables[u]);
        }
        if merged_all(earlier).dom().contains(key) {
            lemma_merged_all_keys(earlier, key);
        }
        if has_key(last, key) {
            let j = choose|j: int| 0 <= j < last.len() && (#[trigger] last[j]).key == key;
            lemma_item_for_unique(last, j);
        }
    }
}

/// Two tables with strictly ascending keys that hold the same entries by key
/// have the same keys in their first `n` places.
pub proof fn lemma_tables_agree(a: Seq<Item>, b: Seq<Item>, n: int)
    requires
        strictly_ascending(a),
        strictly_ascending(b),
        by_key(a) == by_key(b),
        0 <= n <= a.len(),
        n <= b.len(),
    ensures
        forall|p: int| 0 <= p < n ==> (#[trigger] a[p]).key == b[p].key,
    decreases n,
{
    if n > 0 {
        lemma_tables_agree(a, b, n - 1);
        let i = n - 1;
        let key = a[i].key;
        lemma_item_for_unique(a, i);
        assert(by_key(b).dom().contains(key));
        let j = choose|j: int| 0 <= j < b.len() && (#[trigger] b[j]).key == key;
        if j < i {
            assert(a[j].key == b[j].key);
            assert(key_lt(a[j].key, a[i].key));
            lemma_key_lt_irreflexive(key);
        } else if j > i {
            let other = b[i].key;
            assert(key_lt(b[i].key, b[j].key));
            lemma_item_for_unique(b, i);
            assert(by_key(a).dom().contains(other));
            let l = choose|l: int| 0 <= l < a.len() && (#[trigger] a[l]).key == other;
            if l < i {
                assert(a[l].key == b[l].key);
                assert(key_lt(b[l].key, b[i].key));
                lemma_key_lt_irreflexive(other);
            } else if l == i {
                lemma_key_lt_irreflexive(key);
            } else {
                assert(key_lt(a[i].key, a[l].key));
                lemma_key_lt_asymmetric(key, other);
            }
        }
    }
}

/// A table with strictly ascending keys is fixed by the entries it holds by
/// key: two such tables that hold the same entries are the same table.
pub proof fn lemma_ascending_unique(a: Seq<Item>, b: Seq<Item>)
    requires
        strictly_ascending(a),
        strictly_ascending(b),
        by_key(a) == by_key(b),
    ensures
        a == b,
{
    if a.len() < b.len() {
        let n = a.len() as int;
        lemma_tables_agree(a, b, n);
        lemma_item_for_unique(b, n);
        let key = b[n].key;
        assert(by_key(a).dom().contains(key));
        let l = choose|l: int| 0 <= l < a.len() && (#[trigger] a[l]).key == key;
        assert(a[l].key == b[l].key);
        assert(key_lt(b[l].key, b[n].key));
        lemma_key_lt_irreflexive(key);
    } else if b.len() < a.len() {
        let n = b.len() as int;
        lemma_tables_agree(a, b, n);
        lemma_item_for_unique(a, n);
        let key = a[n].key;
        assert(by_key(b).dom().contains(key));
        let l = choose|l: int| 0 <= l < b.len() && (#[trigger] b[l]).key == key;
        assert(a[l].key == b[l].key);
        assert(key_lt(a[l].key, a[n].key));
        lemma_key_lt_irreflexive(key);
    } else {
        lemma_tables_agree(a, b, a.len() as int);
        assert forall|p: int| 0 <= p < a.len() implies a[p] == b[p] by {
            lemma_item_for_unique(a, p);
            lemma_item_for_unique(b, p);
            assert(a[p].key == b[p].key);
            assert(by_key(a)[a[p].key] == a[p]);
            assert(by_key(b)[b[p].key] == b[p]);
        }
        assert(a =~= b);
    }
}

/// Whether `items` is the table that a compaction of `tables` leaves: its
/// keys ascend strictly and it holds what stands.
pub open spec fn is_standing_table(items: Seq<Item>, tables: Seq<Seq<Item>>, expiry: Expiry) -> bool {
    strictly_ascending(items) && by_key(items) == standing(tables, expiry)
}

/// The table that a compaction of `tables` leaves.
pub open spec fn standing_items(tables: Seq<Seq<Item>>, expiry: Expiry) -> Seq<Item> {
    choose|items: Seq<Item>| is_standing_table(items, tables, expiry)
}

/// A compaction leaves one table: whatever table has strictly ascending keys
/// and holds what stands is the table that `standing_items` names.
pub proof fn lemma_standing_items(items: Seq<Item>, tables: Seq<Seq<Item>>, expiry: Expiry)
    requires
        is_standing_table(items, tables, expiry),
    ensures
        standing_items(tables, expiry) == items,
{
    let chosen = standing_items(tables, expiry);
    assert(is_standing_table(chosen, tables, expiry));
    lemma_ascending_unique(chosen, items);
}

} // verus!
