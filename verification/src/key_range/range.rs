//! For each sorted table, by the path of its data file, the smallest and the
//! biggest key it holds. A read skips every table whose envelope cannot hold
//! the key.

use crate::keys::{key_is_le, key_le};
use crate::sstable::table::Table;
use crate::types::Key;
use vstd::prelude::*;

verus! {

/// The envelope of one sorted table.
#[derive(Debug)]
pub struct Range {
    pub smallest_key: Key,
    pub biggest_key: Key,
    pub sst: Table,
}

/// The envelopes of all live sorted tables, in the order in which their paths
/// were first set. No path occurs twice.
#[derive(Debug)]
pub struct KeyRange {
    pub key_ranges: Vec<(String, Range)>,
}

/// Whether `path` is the path of one of `ranges`.
pub open spec fn has_path(ranges: Seq<(String, Range)>, path: Seq<char>) -> bool {
    exists|i: int| 0 <= i < ranges.len() && (#[trigger] ranges[i]).0@ == path
}

/// The position of `path` in `ranges`.
pub open spec fn position_of(ranges: Seq<(String, Range)>, path: Seq<char>) -> int {
    choose|i: int| 0 <= i < ranges.len() && (#[trigger] ranges[i]).0@ == path
}

/// No two of `ranges` have the same path.
pub open spec fn distinct_paths(ranges: Seq<(String, Range)>) -> bool {
    forall|i: int, j: int|
        0 <= i < ranges.len() && 0 <= j < ranges.len() && (#[trigger] ranges[i]).0@ == (
        #[trigger] ranges[j]).0@ ==> i == j
}

/// Whether a table with this envelope may hold `key` or a larger key.
pub open spec fn reaches(range: Range, key: Seq<u8>) -> bool {
    key_le(key, range.biggest_key@)
}

/// Whether this envelope and the closed interval from `start` to `end` have a
/// key in common.
pub open spec fn overlaps(range: Range, start: Seq<u8>, end: Seq<u8>) -> bool {
    key_le(range.smallest_key@, end) && key_le(start, range.biggest_key@)
}

/// The tables of those of `ranges` that reach `key`, in the order of `ranges`.
pub open spec fn tables_reaching(ranges: Seq<(String, Range)>, key: Seq<u8>) -> Seq<Table>
    decreases ranges.len(),
{
    if ranges.len() == 0 {
        Seq::empty()
    } else if reaches(ranges.last().1, key) {
        tables_reaching(ranges.drop_last(), key).push(ranges.last().1.sst)
    } else {
        tables_reaching(ranges.drop_last(), key)
    }
}

/// Those of `ranges` that overlap the interval from `start` to `end`, in the
/// order of `ranges`.
pub open spec fn ranges_overlapping(
    ranges: Seq<(String, Range)>,
    start: Seq<u8>,
    end: Seq<u8>,
) -> Seq<Range>
    decreases ranges.len(),
{
    if ranges.len() == 0 {
        Seq::empty()
    } else if overlaps(ranges.last().1, start, end) {
        ranges_overlapping(ranges.drop_last(), start, end).push(ranges.last().1)
    } else {
        ranges_overlapping(ranges.drop_last(), start, end)
    }
}

/// What `r` holds, reference by reference.
pub open spec fn referents(r: Seq<&Range>) -> Seq<Range> {
    Seq::new(r.len(), |i: int| *r[i])
}

impl Range {
    pub fn new(smallest_key: Key, biggest_key: Key, sst: Table) -> (r: Self)
        ensures
            r.smallest_key == smallest_key,
            r.biggest_key == biggest_key,
            r.sst == sst,
    {
        Self { smallest_key, biggest_key, sst }
    }
}

impl View for KeyRange {
    type V = Map<Seq<char>, Range>;

    /// The envelope of each path.
    open spec fn view(&self) -> Map<Seq<char>, Range> {
        Map::new(
            |path: Seq<char>| has_path(self.key_ranges@, path),
            |path: Seq<char>| self.key_ranges@[position_of(self.key_ranges@, path)].1,
        )
    }
}

impl KeyRange {
    /// No path occurs twice.
    pub open spec fn wf(&self) -> bool {
        distinct_paths(self.key_ranges@)
    }

    /// An index without any table.
    pub fn new() -> (r: Self)
        ensures
            r.wf(),
            r.key_ranges@.len() == 0,
            r@ == Map::<Seq<char>, Range>::empty(),
    {
        let r = Self { key_ranges: Vec::new() };
        assert(r@ =~= Map::<Seq<char>, Range>::empty());
        r
    }

    /// Whether the table at `path` has an envelope.
    pub fn contains_path(&self, path: &String) -> (r: bool)
        ensures
            r == self@.dom().contains(path@),
    {
        self.find(path).is_some()
    }

    /// The position of `path`, if it is there.
    fn find(&self, path: &String) -> (r: Option<usize>)
        ensures
            r is Some <==> has_path(self.key_ranges@, path@),
            r matches Some(i) ==> i < self.key_ranges@.len() && self.key_ranges@[i as int].0@
                == path@,
    {
        let mut i: usize = 0;
        while i < self.key_ranges.len()
            invariant
                i <= self.key_ranges@.len(),
                forall|j: int| 0 <= j < i ==> (#[trigger] self.key_ranges@[j]).0@ != path@,
            decreases self.key_ranges.len() - i,
        {
            if self.key_ranges[i].0 == *path {
                return Some(i);
            }
            i += 1;
        }
        None
    }

    /// Sets the envelope of the table at `sst_path`, in place of the one it
    /// had. Tells whether it had one.
    pub fn set(&mut self, sst_path: String, smallest_key: Key, biggest_key: Key, table: Table) -> (r:
        bool)
        requires
            old(self).wf(),
        ensures
            final(self).wf(),
            r == old(self)@.dom().contains(sst_path@),
            final(self)@ == old(self)@.insert(
                sst_path@,
                (Range { smallest_key, biggest_key, sst: table }),
            ),
            r ==> final(self).key_ranges@ == old(self).key_ranges@.update(
                position_of(old(self).key_ranges@, sst_path@),
                (sst_path, (Range { smallest_key, biggest_key, sst: table })),
            ),
            !r ==> final(self).key_ranges@ == old(self).key_ranges@.push(
                (sst_path, (Range { smallest_key, biggest_key, sst: table })),
            ),
    {
        let ghost path = sst_path@;
        let range = Range::new(smallest_key, biggest_key, table);
        match self.find(&sst_path) {
            Some(i) => {
                self.key_ranges.set(i, (sst_path, range));
                proof {
                    let before = old(self).key_ranges@;
                    let after = self.key_ranges@;
                    assert(position_of(before, path) == i);
                    assert forall|p: Seq<char>| has_path(after, p) <==> has_path(before, p) by {
                        if has_path(after, p) {
                            let j = position_of(after, p);
                            assert(before[j].0@ == p);
                        }
                        if has_path(before, p) {
                            let j = position_of(before, p);
                            assert(after[j].0@ == p);
                        }
                    }
                    assert forall|p: Seq<char>| has_path(after, p) implies #[trigger] self@[p]
                        == old(self)@.insert(path, range)[p] by {
                        let j = position_of(after, p);
                        assert(before[j].0@ == p);
                        assert(position_of(before, p) == j);
                    }
                    assert(self@ =~= old(self)@.insert(path, range));
                }
                true
            },
            None => {
                self.key_ranges.push((sst_path, range));
                proof {
                    let before = old(self).key_ranges@;
                    let after = self.key_ranges@;
                    let n = before.len() as int;
                    assert(after[n].0@ == path);
                    assert forall|p: Seq<char>| has_path(after, p) <==> (p == path || has_path(
                        before,
                        p,
                    )) by {
                        if has_path(after, p) {
                            let j = position_of(after, p);
                            if j < n {
                                assert(before[j].0@ == p);
                            }
                        }
                        if has_path(before, p) {
                            let j = position_of(before, p);
                            assert(after[j].0@ == p);
                        }
                    }
                    assert forall|p: Seq<char>| has_path(after, p) implies #[trigger] self@[p]
                        == old(self)@.insert(path, range)[p] by {
                        let j = position_of(after, p);
                        if j < n {
                            assert(before[j].0@ == p);
                            assert(position_of(before, p) == j);
                        }
                    }
                    assert(self@ =~= old(self)@.insert(path, range));
                }
                false
            },
        }
    }

    /// Forgets the table at `sst_path`. Tells whether it was known.
    pub fn remove(&mut self, sst_path: String) -> (r: bool)
        requires
            old(self).wf(),
        ensures
            final(self).wf(),
            r == old(self)@.dom().contains(sst_path@),
            final(self)@ == old(self)@.remove(sst_path@),
            r ==> final(self).key_ranges@ == old(self).key_ranges@.remove(
                position_of(old(self).key_ranges@, sst_path@),
            ),
            !r ==> final(self).key_ranges@ == old(self).key_ranges@,
    {
        let ghost path = sst_path@;
        match self.find(&sst_path) {
            Some(i) => {
                self.key_ranges.remove(i);
                proof {
                    let before = old(self).key_ranges@;
                    let after = self.key_ranges@;
                    assert(position_of(before, path) == i);
                    assert forall|a: int, b: int|
                        0 <= a < after.len() && 0 <= b < after.len() && (#[trigger] after[a]).0@
                            == (#[trigger] after[b]).0@ implies a == b by {
                        let a0 = if a < i { a } else { a + 1 };
                        let b0 = if b < i { b } else { b + 1 };
                        assert(before[a0].0@ == before[b0].0@);
                    }
                    assert forall|p: Seq<char>| has_path(after, p) <==> (p != path && has_path(
                        before,
                        p,
                    )) by {
                        if has_path(after, p) {
                            let j = position_of(after, p);
                            let j0 = if j < i { j } else { j + 1 };
                            assert(before[j0].0@ == p);
                        }
                        if p != path && has_path(before, p) {
                            let j = position_of(before, p);
                            let j1 = if j < i { j } else { j - 1 };
                            assert(after[j1].0@ == p);
                        }
                    }
                    assert forall|p: Seq<char>| has_path(after, p) implies #[trigger] self@[p]
                        == old(self)@.remove(path)[p] by {
                        let j = position_of(after, p);
                        let j0 = if j < i { j } else { j + 1 };
                        assert(before[j0].0@ == p);
                        assert(position_of(before, p) == j0);
                    }
                    assert(self@ =~= old(self)@.remove(path));
                }
                true
            },
            None => {
                proof {
                    assert(self@ =~= old(self)@.remove(path));
                }
                false
            },
        }
    }

    /// The tables whose biggest key is `key` or larger, in the order in which
    /// their paths were set.
    pub fn filter_sstables_by_biggest_key(&self, key: &Key) -> (r: Vec<Table>)
        ensures
            r@ == tables_reaching(self.key_ranges@, key@),
    {
        let mut out: Vec<Table> = Vec::new();
        let mut i: usize = 0;
        while i < self.key_ranges.len()
            invariant
                i <= self.key_ranges@.len(),
                out@ == tables_reaching(self.key_ranges@.subrange(0, i as int), key@),
            decreases self.key_ranges.len() - i,
        {
            let range = &self.key_ranges[i].1;
            proof {
                let next = self.key_ranges@.subrange(0, i + 1);
                assert(next.drop_last() =~= self.key_ranges@.subrange(0, i as int));
                assert(next.last() == self.key_ranges@[i as int]);
            }
            if key_is_le(key.as_slice(), range.biggest_key.as_slice()) {
                out.push(range.sst.clone());
            }
            i += 1;
        }
        assert(self.key_ranges@.subrange(0, i as int) =~= self.key_ranges@);
        out
    }

    /// The envelopes that have a key in common with the closed interval from
    /// `start_key` to `end_key`, in the order in which their paths were set.
    pub fn range_scan(&self, start_key: &Key, end_key: &Key) -> (r: Vec<&Range>)
        ensures
            referents(r@) == ranges_overlapping(self.key_ranges@, start_key@, end_key@),
    {
        let mut out: Vec<&Range> = Vec::new();
        let mut i: usize = 0;
        while i < self.key_ranges.len()
            invariant
                i <= self.key_ranges@.len(),
                referents(out@) == ranges_overlapping(
                    self.key_ranges@.subrange(0, i as int),
                    start_key@,
                    end_key@,
                ),
            decreases self.key_ranges.len() - i,
        {
            let range = &self.key_ranges[i].1;
            let ghost before = out@;
            proof {
                let next = self.key_ranges@.subrange(0, i + 1);
                assert(next.drop_last() =~= self.key_ranges@.subrange(0, i as int));
                assert(next.last() == self.key_ranges@[i as int]);
            }
            if key_is_le(range.smallest_key.as_slice(), end_key.as_slice()) && key_is_le(
                start_key.as_slice(),
                range.biggest_key.as_slice(),
            ) {
                out.push(range);
                assert(referents(out@) =~= referents(before).push(*range));
            }
            i += 1;
        }
        assert(self.key_ranges@.subrange(0, i as int) =~= self.key_ranges@);
        out
    }
}

} // verus!
