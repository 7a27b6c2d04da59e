//! The sparse index of a sorted table: for some of its keys, in ascending
//! order, the offset of the key's entry in the data file.
//!
//! A mark is laid out as `key_len:u32 | key | data_offset:u64`, integers
//! little-endian, nothing in between.

use crate::codec::{
    append_bytes, lemma_u32_round_trip, lemma_u64_round_trip, put_u32_le, put_u64_le, read_bytes,
    read_u32_le, read_u64_le, u32_at, u64_at,
};
use crate::keys::{
    key_is_le, key_le, key_lt, key_order, lemma_key_le_transitive, lemma_key_lt_asymmetric,
    lemma_key_lt_transitive, KeyOrder,
};
use vstd::bytes::{
    lemma_auto_spec_u32_to_from_le_bytes, lemma_auto_spec_u64_to_from_le_bytes,
    spec_u32_to_le_bytes, spec_u64_to_le_bytes,
};
use vstd::prelude::*;

verus! {

/// Bytes of a mark besides its key.
pub const MARK_OVERHEAD: usize = 12;

/// A mark as a mathematical value.
pub struct Mark {
    pub key: Seq<u8>,
    pub offset: usize,
}

/// A mark: a key and the offset of its entry in the data file.
#[derive(Debug)]
pub struct SparseEntry {
    pub key: Vec<u8>,
    pub offset: usize,
}

impl View for SparseEntry {
    type V = Mark;

    open spec fn view(&self) -> Mark {
        Mark { key: self.key@, offset: self.offset }
    }
}

/// What `entries` stand for, entry by entry.
pub open spec fn marks_of(entries: Seq<SparseEntry>) -> Seq<Mark> {
    Seq::new(entries.len(), |i: int| entries[i]@)
}

/// The bytes of a mark.
pub open spec fn mark_bytes(mark: Mark) -> Seq<u8> {
    spec_u32_to_le_bytes(mark.key.len() as u32) + mark.key + spec_u64_to_le_bytes(
        mark.offset as u64,
    )
}

/// The number of bytes of a mark.
pub open spec fn mark_len(mark: Mark) -> int {
    MARK_OVERHEAD + mark.key.len()
}

/// The mark that starts at `at` in `index`, if a whole well-formed mark stands
/// there.
pub open spec fn mark_at(index: Seq<u8>, at: int) -> Option<Mark> {
    if 0 <= at && at + 4 <= index.len() {
        let key_len = u32_at(index, at) as int;
        if at + MARK_OVERHEAD + key_len <= index.len() && u64_at(index, at + 4 + key_len)
            <= usize::MAX {
            Some(
                Mark {
                    key: index.subrange(at + 4, at + 4 + key_len),
                    offset: u64_at(index, at + 4 + key_len) as usize,
                },
            )
        } else {
            None
        }
    } else {
        None
    }
}

/// The marks of `index` from `at` on, up to the first place where no whole
/// well-formed mark stands.
pub open spec fn marks_from(index: Seq<u8>, at: int) -> Seq<Mark>
    decreases index.len() - at,
{
    match mark_at(index, at) {
        Some(mark) => seq![mark] + marks_from(index, at + mark_len(mark)),
        None => Seq::empty(),
    }
}

/// The index file that holds exactly `marks`, one after the other.
pub open spec fn index_of(marks: Seq<Mark>) -> Seq<u8>
    decreases marks.len(),
{
    if marks.len() == 0 {
        Seq::empty()
    } else {
        index_of(marks.drop_last()) + mark_bytes(marks.last())
    }
}

/// Keys ascend strictly from each mark to the next.
pub open spec fn marks_ascending(marks: Seq<Mark>) -> bool {
    forall|i: int, j: int|
        0 <= i < j < marks.len() ==> key_lt((#[trigger] marks[i]).key, (#[trigger] marks[j]).key)
}

/// The offset of the last of `marks` whose key is `key` or smaller; `None`
/// where every mark has a larger key.
pub open spec fn floor_offset(marks: Seq<Mark>, key: Seq<u8>) -> Option<usize>
    decreases marks.len(),
{
    if marks.len() == 0 {
        None
    } else if key_le(marks.last().key, key) {
        Some(marks.last().offset)
    } else {
        floor_offset(marks.drop_last(), key)
    }
}

/// The bytes of a mark are as many as its length says.
pub proof fn lemma_mark_bytes_len(mark: Mark)
    ensures
        mark_bytes(mark).len() == mark_len(mark),
{
    lemma_auto_spec_u32_to_from_le_bytes();
    lemma_auto_spec_u64_to_from_le_bytes();
}

/// A mark written between any two byte strings is read back from where it
/// starts.
pub proof fn lemma_mark_round_trip(prefix: Seq<u8>, mark: Mark, suffix: Seq<u8>)
    requires
        mark.key.len() <= u32::MAX,
    ensures
        mark_at(prefix + mark_bytes(mark) + suffix, prefix.len() as int) == Some(mark),
{
    lemma_auto_spec_u32_to_from_le_bytes();
    lemma_auto_spec_u64_to_from_le_bytes();
    let index = prefix + mark_bytes(mark) + suffix;
    let at = prefix.len() as int;
    let k = spec_u32_to_le_bytes(mark.key.len() as u32);
    let o = spec_u64_to_le_bytes(mark.offset as u64);
    assert(index =~= prefix + k + (mark.key + o + suffix));
    lemma_u32_round_trip(prefix, mark.key.len() as u32, mark.key + o + suffix);
    assert(index =~= (prefix + k + mark.key) + o + suffix);
    lemma_u64_round_trip(prefix + k + mark.key, mark.offset as u64, suffix);
    assert(index.subrange(at + 4, at + 4 + mark.key.len()) =~= mark.key);
}

/// The index file of two runs of marks is the file of the first followed by
/// the file of the second.
pub proof fn lemma_index_of_concat(a: Seq<Mark>, b: Seq<Mark>)
    ensures
        index_of(a + b) == index_of(a) + index_of(b),
    decreases b.len(),
{
    if b.len() == 0 {
        assert(a + b =~= a);
        assert(index_of(a) + index_of(b) =~= index_of(a));
    } else {
        assert((a + b).drop_last() =~= a + b.drop_last());
        assert((a + b).last() == b.last());
        lemma_index_of_concat(a, b.drop_last());
        assert(index_of(a + b) =~= index_of(a) + index_of(b));
    }
}

/// Reading the index file of `before + rest` from the end of `before` gives
/// `rest`.
pub proof fn lemma_marks_from_index(before: Seq<Mark>, rest: Seq<Mark>)
    requires
        forall|i: int| 0 <= i < before.len() ==> (#[trigger] before[i]).key.len() <= u32::MAX,
        forall|i: int| 0 <= i < rest.len() ==> (#[trigger] rest[i]).key.len() <= u32::MAX,
    ensures
        marks_from(index_of(before + rest), index_of(before).len() as int) == rest,
    decreases rest.len(),
{
    let whole = before + rest;
    let at = index_of(before).len() as int;
    if rest.len() == 0 {
        assert(whole =~= before);
        assert(mark_at(index_of(before), at) is None);
        assert(marks_from(index_of(whole), at) =~= rest);
    } else {
        let first = rest[0];
        let later = rest.drop_first();
        let upto = before.push(first);
        assert(whole =~= upto + later);
        lemma_index_of_concat(upto, later);
        assert(upto.drop_last() =~= before);
        assert(index_of(upto) == index_of(before) + mark_bytes(first));
        lemma_mark_round_trip(index_of(before), first, index_of(later));
        lemma_mark_bytes_len(first);
        assert forall|i: int| 0 <= i < upto.len() implies (#[trigger] upto[i]).key.len()
            <= u32::MAX by {
            if i < before.len() {
                assert(upto[i] == before[i]);
            }
        }
        assert forall|i: int| 0 <= i < later.len() implies (#[trigger] later[i]).key.len()
            <= u32::MAX by {
            assert(later[i] == rest[i + 1]);
        }
        lemma_marks_from_index(upto, later);
        assert(marks_from(index_of(whole), at) =~= seq![first] + marks_from(
            index_of(whole),
            at + mark_len(first),
        ));
        assert(marks_from(index_of(whole), at) =~= rest);
    }
}

/// Every mark written to an index file is read back from offset zero, exactly
/// as it was written and in the order of writing.
pub proof fn lemma_index_round_trip(marks: Seq<Mark>)
    requires
        forall|i: int| 0 <= i < marks.len() ==> (#[trigger] marks[i]).key.len() <= u32::MAX,
    ensures
        marks_from(index_of(marks), 0) == marks,
{
    let none = Seq::<Mark>::empty();
    assert(none + marks =~= marks);
    lemma_marks_from_index(none, marks);
}

/// Among ascending marks, the marks whose key is `key` or smaller are the
/// first `n` for some `n`, and the floor is the offset of the last of them.
pub proof fn lemma_floor_of_prefix(marks: Seq<Mark>, key: Seq<u8>, n: int)
    requires
        marks_ascending(marks),
        0 <= n <= marks.len(),
        forall|j: int| 0 <= j < n ==> key_le((#[trigger] marks[j]).key, key),
        forall|j: int| n <= j < marks.len() ==> !key_le((#[trigger] marks[j]).key, key),
    ensures
        floor_offset(marks, key) == if n == 0 {
            None
        } else {
            Some(marks[n - 1].offset)
        },
    decreases marks.len(),
{
    if marks.len() > 0 {
        if n < marks.len() {
            let shorter = marks.drop_last();
            assert forall|i: int, j: int| 0 <= i < j < shorter.len() implies key_lt(
                (#[trigger] shorter[i]).key,
                (#[trigger] shorter[j]).key,
            ) by {
                assert(shorter[i] == marks[i]);
                assert(shorter[j] == marks[j]);
            }
            assert forall|j: int| 0 <= j < n implies key_le((#[trigger] shorter[j]).key, key) by {
                assert(shorter[j] == marks[j]);
            }
            assert forall|j: int| n <= j < shorter.len() implies !key_le(
                (#[trigger] shorter[j]).key,
                key,
            ) by {
                assert(shorter[j] == marks[j]);
            }
            assert(!key_le(marks[marks.len() - 1].key, key));
            lemma_floor_of_prefix(shorter, key, n);
            if n > 0 {
                assert(shorter[n - 1] == marks[n - 1]);
            }
        } else {
            assert(key_le(marks[n - 1].key, key));
        }
    }
}

/// The sparse index of a sorted table, read into memory.
#[derive(Debug)]
pub struct SparseIndex {
    pub entries: Vec<SparseEntry>,
}

impl View for SparseIndex {
    type V = Seq<Mark>;

    open spec fn view(&self) -> Seq<Mark> {
        marks_of(self.entries@)
    }
}

impl SparseIndex {
    /// The marks ascend strictly by key.
    pub open spec fn wf(&self) -> bool {
        marks_ascending(self@)
    }

    /// Appends the bytes of the mark for `key` at `offset` to `index`.
    pub fn write_mark(index: &mut Vec<u8>, key: &[u8], offset: usize)
        requires
            key@.len() <= u32::MAX,
        ensures
            final(index)@ == old(index)@ + mark_bytes((Mark { key: key@, offset })),
    {
        let ghost before = index@;
        put_u32_le(index, key.len() as u32);
        append_bytes(index, key);
        put_u64_le(index, offset as u64);
        assert(index@ =~= before + mark_bytes(Mark { key: key@, offset }));
    }

    /// The mark that starts at `at` in `index`, with the offset just behind
    /// it; `None` where no whole well-formed mark stands there.
    pub fn read_mark(index: &[u8], at: usize) -> (r: Option<(SparseEntry, usize)>)
        ensures
            r is Some <==> mark_at(index@, at as int) is Some,
            r matches Some((entry, next)) ==> mark_at(index@, at as int) == Some(entry@) && next
                == at + mark_len(entry@),
    {
        let total = index.len();
        if total < MARK_OVERHEAD || at > total - MARK_OVERHEAD {
            return None;
        }
        let key_len = read_u32_le(index, at) as usize;
        if key_len > total - MARK_OVERHEAD - at {
            return None;
        }
        let raw_offset = read_u64_le(index, at + 4 + key_len);
        if raw_offset > usize::MAX as u64 {
            return None;
        }
        let key = read_bytes(index, at + 4, key_len);
        Some((SparseEntry { key, offset: raw_offset as usize }, at + MARK_OVERHEAD + key_len))
    }

    /// The marks of an index file, in order, up to the first place where no
    /// whole well-formed mark stands.
    pub fn from_bytes(index: &[u8]) -> (r: Self)
        ensures
            r@ == marks_from(index@, 0),
    {
        let mut out: Vec<SparseEntry> = Vec::new();
        let mut at: usize = 0;
        loop
            invariant
                marks_of(out@) + marks_from(index@, at as int) == marks_from(index@, 0),
            decreases index@.len() - at,
        {
            let ghost before = out@;
            match Self::read_mark(index, at) {
                Some((entry, next)) => {
                    let ghost mark = entry@;
                    proof {
                        assert(marks_from(index@, at as int) =~= seq![mark] + marks_from(
                            index@,
                            next as int,
                        ));
                    }
                    out.push(entry);
                    proof {
                        assert(marks_of(out@) =~= marks_of(before).push(mark));
                        assert(marks_of(out@) + marks_from(index@, next as int) =~= marks_of(before)
                            + marks_from(index@, at as int));
                    }
                    at = next;
                },
                None => {
                    proof {
                        assert(marks_from(index@, at as int) =~= Seq::empty());
                        assert(marks_of(out@) =~= marks_from(index@, 0));
                    }
                    return SparseIndex { entries: out };
                },
            }
        }
    }

    /// Whether the marks ascend strictly by key.
    pub fn is_sorted(&self) -> (r: bool)
        ensures
            r == self.wf(),
    {
        if self.entries.len() < 2 {
            return true;
        }
        let mut i: usize = 1;
        while i < self.entries.len()
            invariant
                1 <= i <= self.entries@.len(),
                forall|a: int, b: int|
                    0 <= a < b < i ==> key_lt((#[trigger] self@[a]).key, (#[trigger] self@[b]).key),
            decreases self.entries.len() - i,
        {
            match key_order(self.entries[i - 1].key.as_slice(), self.entries[i].key.as_slice()) {
                KeyOrder::Less => {
                    proof {
                        assert forall|a: int, b: int| 0 <= a < b < i + 1 implies key_lt(
                            (#[trigger] self@[a]).key,
                            (#[trigger] self@[b]).key,
                        ) by {
                            if b == i {
                                if a < i - 1 {
                                    assert(key_lt(self@[a].key, self@[i - 1].key));
                                    lemma_key_lt_transitive(
                                        self@[a].key,
                                        self@[i - 1].key,
                                        self@[i as int].key,
                                    );
                                }
                            }
                        }
                    }
                },
                _ => {
                    proof {
                        if self.wf() {
                            assert(key_lt(self@[i - 1].key, self@[i as int].key));
                            if self@[i - 1].key != self@[i as int].key {
                                lemma_key_lt_asymmetric(self@[i - 1].key, self@[i as int].key);
                            } else {
                                crate::keys::lemma_key_lt_irreflexive(self@[i - 1].key);
                            }
                        }
                    }
                    return false;
                },
            }
            i += 1;
        }
        true
    }

    /// The data-file offset of the greatest marked key that is `key` or
    /// smaller, by binary search; `None` where `key` is smaller than every
    /// marked key.
    pub fn get(&self, key: &[u8]) -> (r: Option<usize>)
        requires
            self.wf(),
        ensures
            r == floor_offset(self@, key@),
    {
        let mut lo: usize = 0;
        let mut hi: usize = self.entries.len();
        while lo < hi
            invariant
                0 <= lo <= hi <= self.entries@.len(),
                self.wf(),
                forall|j: int| 0 <= j < lo ==> key_le((#[trigger] self@[j]).key, key@),
                forall|j: int| hi <= j < self@.len() ==> !key_le((#[trigger] self@[j]).key, key@),
            decreases hi - lo,
        {
            let mid = lo + (hi - lo) / 2;
            if key_is_le(self.entries[mid].key.as_slice(), key) {
                proof {
                    assert forall|j: int| 0 <= j < mid + 1 implies key_le(
                        (#[trigger] self@[j]).key,
                        key@,
                    ) by {
                        if j < mid {
                            assert(key_lt(self@[j].key, self@[mid as int].key));
                            lemma_key_le_transitive(self@[j].key, self@[mid as int].key, key@);
                        }
                    }
                }
                lo = mid + 1;
            } else {
                proof {
                    assert forall|j: int| mid <= j < self@.len() implies !key_le(
                        (#[trigger] self@[j]).key,
                        key@,
                    ) by {
                        if j > mid && key_le(self@[j].key, key@) {
                            assert(key_lt(self@[mid as int].key, self@[j].key));
                            lemma_key_le_transitive(self@[mid as int].key, self@[j].key, key@);
                        }
                    }
                }
                hi = mid;
            }
        }
        proof {
            lemma_floor_of_prefix(self@, key@, lo as int);
        }
        if lo == 0 {
            None
        } else {
            Some(self.entries[lo - 1].offset)
        }
    }
}

} // verus!
