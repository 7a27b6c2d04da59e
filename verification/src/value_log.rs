//! The value log: an append-only sequence of records, each holding a key, its
//! value, its creation time and its tombstone flag.
//!
//! A record is laid out as
//! `key_len:u32 | value_len:u32 | created_at:u64 | is_tombstone:u8 | key | value`,
//! integers little-endian, nothing in between.

use crate::codec::{
    append_bytes, flag_byte, lemma_u32_round_trip, lemma_u64_round_trip, put_u32_le, put_u64_le,
    read_bytes, read_u32_le, read_u64_le, u32_at, u64_at,
};
use vstd::bytes::{
    lemma_auto_spec_u32_to_from_le_bytes, lemma_auto_spec_u64_to_from_le_bytes,
    spec_u32_to_le_bytes, spec_u64_to_le_bytes,
};
use vstd::prelude::*;

verus! {

/// Bytes of a record before its key.
pub const VLOG_HEADER_LEN: usize = 17;

/// A record of the value log, as a mathematical value.
pub struct Record {
    pub key: Seq<u8>,
    pub value: Seq<u8>,
    pub created_at: u64,
    pub is_tombstone: bool,
}

/// A record of the value log.
#[derive(Debug)]
pub struct ValueLogEntry {
    pub key: Vec<u8>,
    pub value: Vec<u8>,
    pub created_at: u64,
    pub is_tombstone: bool,
}

impl View for ValueLogEntry {
    type V = Record;

    open spec fn view(&self) -> Record {
        Record {
            key: self.key@,
            value: self.value@,
            created_at: self.created_at,
            is_tombstone: self.is_tombstone,
        }
    }
}

/// Whether the lengths of the key and the value fit their fields.
pub open spec fn encodable(r: Record) -> bool {
    r.key.len() <= u32::MAX && r.value.len() <= u32::MAX
}

/// The bytes of a record before its key.
pub open spec fn header_bytes(r: Record) -> Seq<u8> {
    spec_u32_to_le_bytes(r.key.len() as u32) + spec_u32_to_le_bytes(r.value.len() as u32)
        + spec_u64_to_le_bytes(r.created_at) + seq![flag_byte(r.is_tombstone)]
}

/// The bytes of a record.
pub open spec fn record_bytes(r: Record) -> Seq<u8> {
    header_bytes(r) + r.key + r.value
}

/// The number of bytes of a record.
pub open spec fn record_len(r: Record) -> int {
    VLOG_HEADER_LEN + r.key.len() + r.value.len()
}

/// The record that starts at `at` in `log`, if a whole well-formed record
/// stands there.
pub open spec fn record_at(log: Seq<u8>, at: int) -> Option<Record> {
    if 0 <= at && at + VLOG_HEADER_LEN <= log.len() {
        let key_len = u32_at(log, at) as int;
        let value_len = u32_at(log, at + 4) as int;
        let flag = log[at + 16];
        if flag <= 1 && at + VLOG_HEADER_LEN + key_len + value_len <= log.len() {
            Some(
                Record {
                    key: log.subrange(at + VLOG_HEADER_LEN, at + VLOG_HEADER_LEN + key_len),
                    value: log.subrange(
                        at + VLOG_HEADER_LEN + key_len,
                        at + VLOG_HEADER_LEN + key_len + value_len,
                    ),
                    created_at: u64_at(log, at + 8),
                    is_tombstone: flag == 1,
                },
            )
        } else {
            None
        }
    } else {
        None
    }
}

/// The records of `log` from `at` on, each with the offset at which it
/// starts, up to the first place where no whole well-formed record stands.
pub open spec fn records_from(log: Seq<u8>, at: int) -> Seq<(int, Record)>
    decreases log.len() - at,
{
    match record_at(log, at) {
        Some(r) => seq![(at, r)] + records_from(log, at + record_len(r)),
        None => Seq::empty(),
    }
}

/// The log that holds exactly `records`, one after the other.
pub open spec fn log_of(records: Seq<Record>) -> Seq<u8>
    decreases records.len(),
{
    if records.len() == 0 {
        Seq::empty()
    } else {
        log_of(records.drop_last()) + record_bytes(records.last())
    }
}

/// What `entries` hold, entry by entry.
pub open spec fn records_of(entries: Seq<ValueLogEntry>) -> Seq<Record> {
    Seq::new(entries.len(), |i: int| entries[i]@)
}

/// The records of `located` without their offsets.
pub open spec fn without_offsets(located: Seq<(int, Record)>) -> Seq<Record> {
    Seq::new(located.len(), |i: int| located[i].1)
}

/// The bytes of a record are as many as its length says.
pub proof fn lemma_record_bytes_len(r: Record)
    ensures
        record_bytes(r).len() == record_len(r),
{
    lemma_auto_spec_u32_to_from_le_bytes();
    lemma_auto_spec_u64_to_from_le_bytes();
}

/// A record written between any two byte strings is read back from where it
/// starts.
pub proof fn lemma_record_round_trip(prefix: Seq<u8>, r: Record, suffix: Seq<u8>)
    requires
        encodable(r),
    ensures
        record_at(prefix + record_bytes(r) + suffix, prefix.len() as int) == Some(r),
{
    lemma_auto_spec_u32_to_from_le_bytes();
    lemma_auto_spec_u64_to_from_le_bytes();
    let log = prefix + record_bytes(r) + suffix;
    let at = prefix.len() as int;
    let k = spec_u32_to_le_bytes(r.key.len() as u32);
    let v = spec_u32_to_le_bytes(r.value.len() as u32);
    let t = spec_u64_to_le_bytes(r.created_at);
    let f = seq![flag_byte(r.is_tombstone)];
    assert(log =~= prefix + k + (v + t + f + r.key + r.value + suffix));
    lemma_u32_round_trip(prefix, r.key.len() as u32, v + t + f + r.key + r.value + suffix);
    assert(log =~= (prefix + k) + v + (t + f + r.key + r.value + suffix));
    lemma_u32_round_trip(prefix + k, r.value.len() as u32, t + f + r.key + r.value + suffix);
    assert(log =~= (prefix + k + v) + t + (f + r.key + r.value + suffix));
    lemma_u64_round_trip(prefix + k + v, r.created_at, f + r.key + r.value + suffix);
    assert(log[at + 16] == flag_byte(r.is_tombstone));
    let key_len = r.key.len() as int;
    let value_len = r.value.len() as int;
    assert(log.subrange(at + VLOG_HEADER_LEN, at + VLOG_HEADER_LEN + key_len) =~= r.key);
    assert(log.subrange(
        at + VLOG_HEADER_LEN + key_len,
        at + VLOG_HEADER_LEN + key_len + value_len,
    ) =~= r.value);
}

/// A record that stands in a log stands unchanged in every extension of the
/// log.
pub proof fn lemma_record_at_stable(log: Seq<u8>, more: Seq<u8>, at: int)
    requires
        record_at(log, at) is Some,
    ensures
        record_at(log + more, at) == record_at(log, at),
{
    let long = log + more;
    assert(long.subrange(at, at + 4) =~= log.subrange(at, at + 4));
    assert(long.subrange(at + 4, at + 4 + 4) =~= log.subrange(at + 4, at + 4 + 4));
    assert(long.subrange(at + 8, at + 8 + 8) =~= log.subrange(at + 8, at + 8 + 8));
    let key_len = u32_at(log, at) as int;
    let value_len = u32_at(log, at + 4) as int;
    assert(long.subrange(at + VLOG_HEADER_LEN, at + VLOG_HEADER_LEN + key_len) =~= log.subrange(
        at + VLOG_HEADER_LEN,
        at + VLOG_HEADER_LEN + key_len,
    ));
    assert(long.subrange(
        at + VLOG_HEADER_LEN + key_len,
        at + VLOG_HEADER_LEN + key_len + value_len,
    ) =~= log.subrange(
        at + VLOG_HEADER_LEN + key_len,
        at + VLOG_HEADER_LEN + key_len + value_len,
    ));
}

/// Appending a record to a log of records appends it to what is read back.
pub proof fn lemma_records_from_append(records: Seq<Record>, at: int, tail: Seq<Record>)
    requires
        forall|i: int| 0 <= i < records.len() ==> encodable(#[trigger] records[i]),
        forall|i: int| 0 <= i < tail.len() ==> encodable(#[trigger] tail[i]),
        at == log_of(records).len(),
    ensures
        without_offsets(records_from(log_of(records + tail), at)) == tail,
    decreases tail.len(),
{
    let whole = records + tail;
    if tail.len() == 0 {
        assert(whole =~= records);
        assert(record_at(log_of(records), at) is None);
        assert(without_offsets(records_from(log_of(whole), at)) =~= tail);
    } else {
        let first = tail[0];
        let rest = tail.drop_first();
        let upto = records.push(first);
        assert(whole =~= upto + rest);
        lemma_log_of_concat(upto, rest);
        assert(upto.drop_last() =~= records);
        assert(log_of(upto) == log_of(records) + record_bytes(first));
        lemma_record_round_trip(log_of(records), first, log_of(rest));
        lemma_record_bytes_len(first);
        assert forall|i: int| 0 <= i < upto.len() implies encodable(#[trigger] upto[i]) by {
            if i < records.len() {
                assert(upto[i] == records[i]);
            }
        }
        assert forall|i: int| 0 <= i < rest.len() implies encodable(#[trigger] rest[i]) by {
            assert(rest[i] == tail[i + 1]);
        }
        lemma_records_from_append(upto, at + record_len(first), rest);
        let located = records_from(log_of(whole), at);
        let behind = records_from(log_of(whole), at + record_len(first));
        assert(located =~= seq![(at, first)] + behind);
        assert(without_offsets(behind).len() == rest.len());
        assert forall|i: int| 0 <= i < located.len() implies without_offsets(located)[i]
            == tail[i] by {
            if i > 0 {
                assert(located[i] == behind[i - 1]);
                assert(without_offsets(behind)[i - 1] == rest[i - 1]);
            }
        }
        assert(without_offsets(located) =~= tail);
    }
}

/// The log of two runs of records is the log of the first followed by the log
/// of the second.
pub proof fn lemma_log_of_concat(a: Seq<Record>, b: Seq<Record>)
    ensures
        log_of(a + b) == log_of(a) + log_of(b),
    decreases b.len(),
{
    if b.len() == 0 {
        assert(a + b =~= a);
        assert(log_of(a) + log_of(b) =~= log_of(a));
    } else {
        assert((a + b).drop_last() =~= a + b.drop_last());
        assert((a + b).last() == b.last());
        lemma_log_of_concat(a, b.drop_last());
        assert(log_of(a + b) =~= log_of(a) + log_of(b));
    }
}

/// Every record written to an empty log is read back from offset zero, exactly
/// as it was written and in the order of writing.
pub proof fn lemma_recover_round_trip(records: Seq<Record>)
    requires
        forall|i: int| 0 <= i < records.len() ==> encodable(#[trigger] records[i]),
    ensures
        without_offsets(records_from(log_of(records), 0)) == records,
{
    let none = Seq::<Record>::empty();
    assert(none + records =~= records);
    lemma_records_from_append(none, 0, records);
}

/// Where reading record after record from `at` comes to a stop in `log`.
pub open spec fn parse_end(log: Seq<u8>, at: int) -> int
    decreases log.len() - at,
{
    match record_at(log, at) {
        Some(r) => parse_end(log, at + record_len(r)),
        None => at,
    }
}

/// The log is made of whole records from `at` to its end.
pub open spec fn is_whole_from(log: Seq<u8>, at: int) -> bool {
    0 <= at <= log.len() && parse_end(log, at) == log.len()
}

/// Of several records of one key, none was created before an earlier one.
pub open spec fn times_ascend(located: Seq<(int, Record)>) -> bool {
    forall|i: int, j: int|
        0 <= i < j < located.len() && (#[trigger] located[i]).1.key == (#[trigger] located[j]).1.key
            ==> located[i].1.created_at <= located[j].1.created_at
}

/// The index entry of the last of `located` that has the key `key`.
pub open spec fn last_entry(located: Seq<(int, Record)>, key: Seq<u8>) -> Option<
    (usize, u64, bool),
>
    decreases located.len(),
{
    if located.len() == 0 {
        None
    } else if located.last().1.key == key {
        Some((located.last().0 as usize, located.last().1.created_at, located.last().1.is_tombstone))
    } else {
        last_entry(located.drop_last(), key)
    }
}

/// A record appended to a log that is made of whole records becomes its last
/// record: the log stays made of whole records, and reading it gives the
/// records it gave before and then the new one.
pub proof fn lemma_append_record(log: Seq<u8>, at: int, rec: Record)
    requires
        is_whole_from(log, at),
        encodable(rec),
    ensures
        is_whole_from(log + record_bytes(rec), at),
        records_from(log + record_bytes(rec), at) == records_from(log, at).push(
            (log.len() as int, rec),
        ),
    decreases log.len() - at,
{
    let longer = log + record_bytes(rec);
    lemma_record_bytes_len(rec);
    match record_at(log, at) {
        Some(r) => {
            lemma_record_at_stable(log, record_bytes(rec), at);
            assert(parse_end(log, at) == parse_end(log, at + record_len(r)));
            lemma_append_record(log, at + record_len(r), rec);
            assert(parse_end(longer, at) == parse_end(longer, at + record_len(r)));
            let rest = records_from(log, at + record_len(r));
            assert(records_from(log, at) =~= seq![(at, r)] + rest);
            assert(records_from(longer, at) =~= seq![(at, r)] + records_from(
                longer,
                at + record_len(r),
            ));
            assert(records_from(longer, at) =~= records_from(log, at).push(
                (log.len() as int, rec),
            ));
        },
        None => {
            assert(at == log.len());
            lemma_record_round_trip(log, rec, Seq::empty());
            assert(log + record_bytes(rec) + Seq::<u8>::empty() =~= longer);
            assert(record_at(longer, at) == Some(rec));
            let end = at + record_len(rec);
            assert(end == longer.len());
            assert(record_at(longer, end) is None);
            assert(parse_end(longer, end) == end);
            assert(parse_end(longer, at) == parse_end(longer, end));
            assert(records_from(longer, end) =~= Seq::empty());
            assert(records_from(longer, at) =~= seq![(at, rec)] + records_from(longer, end));
            assert(records_from(log, at) =~= Seq::empty());
            assert(records_from(longer, at) =~= records_from(log, at).push(
                (log.len() as int, rec),
            ));
        },
    }
}

/// The value log as the engine tracks it: where the next record goes, and the
/// head and tail offsets that travel into sorted tables. The bytes themselves
/// are on disk; `log` stands for them in contracts.
pub struct ValueLog {
    pub head_offset: usize,
    pub tail_offset: usize,
    pub size: usize,
    pub log: Ghost<Seq<u8>>,
}

impl ValueLog {
    /// The tracked size is the length of the log.
    pub open spec fn wf(&self) -> bool {
        self.size == self.log@.len()
    }

    /// The tracker of an empty log.
    pub fn new() -> (r: Self)
        ensures
            r.wf(),
            r.size == 0,
            r.head_offset == 0,
            r.tail_offset == 0,
            r.log@ == Seq::<u8>::empty(),
    {
        ValueLog { head_offset: 0, tail_offset: 0, size: 0, log: Ghost(Seq::empty()) }
    }

    /// The tracker of a log that holds `bytes`.
    pub fn over(bytes: &[u8]) -> (r: Self)
        ensures
            r.wf(),
            r.size == bytes@.len(),
            r.head_offset == 0,
            r.tail_offset == 0,
            r.log@ == bytes@,
    {
        ValueLog { head_offset: 0, tail_offset: 0, size: bytes.len(), log: Ghost(bytes@) }
    }

    /// The bytes of the record with these fields.
    pub fn encode(key: &[u8], value: &[u8], created_at: u64, is_tombstone: bool) -> (r: Vec<u8>)
        requires
            key@.len() <= u32::MAX,
            value@.len() <= u32::MAX,
        ensures
            r@ == record_bytes(
                (Record { key: key@, value: value@, created_at, is_tombstone }),
            ),
            r@.len() == VLOG_HEADER_LEN + key@.len() + value@.len(),
    {
        let mut out: Vec<u8> = Vec::new();
        put_u32_le(&mut out, key.len() as u32);
        put_u32_le(&mut out, value.len() as u32);
        put_u64_le(&mut out, created_at);
        out.push(if is_tombstone { 1u8 } else { 0u8 });
        append_bytes(&mut out, key);
        append_bytes(&mut out, value);
        proof {
            let r = Record { key: key@, value: value@, created_at, is_tombstone };
            assert(out@ =~= record_bytes(r));
            lemma_record_bytes_len(r);
        }
        out
    }

    /// The record that starts at `at` in `bytes`, with the offset just behind
    /// it; `None` where no whole well-formed record stands there.
    pub fn decode(bytes: &[u8], at: usize) -> (r: Option<(ValueLogEntry, usize)>)
        ensures
            r is Some <==> record_at(bytes@, at as int) is Some,
            r matches Some((entry, next)) ==> record_at(bytes@, at as int) == Some(entry@) && next
                == at + record_len(entry@),
    {
        let total = bytes.len();
        if total < VLOG_HEADER_LEN || at > total - VLOG_HEADER_LEN {
            return None;
        }
        let key_len = read_u32_le(bytes, at) as usize;
        let value_len = read_u32_le(bytes, at + 4) as usize;
        let created_at = read_u64_le(bytes, at + 8);
        let flag = bytes[at + 16];
        if flag > 1 {
            return None;
        }
        let body = at + VLOG_HEADER_LEN;
        if key_len > total - body {
            return None;
        }
        if value_len > total - body - key_len {
            return None;
        }
        let key = read_bytes(bytes, body, key_len);
        let value = read_bytes(bytes, body + key_len, value_len);
        Some((ValueLogEntry { key, value, created_at, is_tombstone: flag == 1 }, body + key_len + value_len))
    }

    /// The value and the tombstone flag of the record that starts at `offset`
    /// in `bytes`; `None` where no whole well-formed record stands there.
    pub fn get(bytes: &[u8], offset: usize) -> (r: Option<(Vec<u8>, bool)>)
        ensures
            r is Some <==> record_at(bytes@, offset as int) is Some,
            r matches Some((value, is_tombstone)) ==> {
                &&& value@ == record_at(bytes@, offset as int)->0.value
                &&& is_tombstone == record_at(bytes@, offset as int)->0.is_tombstone
            },
    {
        match Self::decode(bytes, offset) {
            Some((entry, _)) => Some((entry.value, entry.is_tombstone)),
            None => None,
        }
    }

    /// The records of `bytes` from `from_offset` on, in order, up to the first
    /// place where no whole well-formed record stands: a torn tail ends the
    /// recovery without an error.
    pub fn recover(bytes: &[u8], from_offset: usize) -> (r: Vec<ValueLogEntry>)
        ensures
            records_of(r@) == without_offsets(records_from(bytes@, from_offset as int)),
    {
        let mut out: Vec<ValueLogEntry> = Vec::new();
        let mut at: usize = from_offset;
        let ghost all = records_from(bytes@, from_offset as int);
        loop
            invariant
                records_of(out@) + without_offsets(records_from(bytes@, at as int))
                    == without_offsets(all),
                all == records_from(bytes@, from_offset as int),
            decreases bytes@.len() - at,
        {
            let ghost before = out@;
            match Self::decode(bytes, at) {
                Some((entry, next)) => {
                    let ghost rec = entry@;
                    proof {
                        let here = records_from(bytes@, at as int);
                        let rest = records_from(bytes@, next as int);
                        assert(here =~= seq![(at as int, rec)] + rest);
                        assert(without_offsets(here) =~= seq![rec] + without_offsets(rest));
                    }
                    out.push(entry);
                    proof {
                        assert(records_of(out@) =~= records_of(before).push(rec));
                        assert(records_of(out@) + without_offsets(
                            records_from(bytes@, next as int),
                        ) =~= records_of(before) + without_offsets(
                            records_from(bytes@, at as int),
                        ));
                    }
                    at = next;
                },
                None => {
                    proof {
                        assert(records_from(bytes@, at as int) =~= Seq::empty());
                        assert(records_of(out@) =~= without_offsets(all));
                    }
                    return out;
                },
            }
        }
    }

    /// Takes note of a record appended to the log: hands back the offset at
    /// which the record starts and the bytes to be written there. The head
    /// moves to that offset.
    pub fn append(&mut self, key: &[u8], value: &[u8], created_at: u64, is_tombstone: bool) -> (r: (
        usize,
        Vec<u8>,
    ))
        requires
            old(self).wf(),
            key@.len() <= u32::MAX,
            value@.len() <= u32::MAX,
            old(self).size + VLOG_HEADER_LEN + key@.len() + value@.len() <= usize::MAX,
        ensures
            final(self).wf(),
            r.0 == old(self).size,
            r.1@ == record_bytes(
                (Record { key: key@, value: value@, created_at, is_tombstone }),
            ),
            final(self).log@ == old(self).log@ + r.1@,
            final(self).size == old(self).size + VLOG_HEADER_LEN + key@.len() + value@.len(),
            final(self).head_offset == old(self).size,
            final(self).tail_offset == old(self).tail_offset,
            record_at(final(self).log@, r.0 as int) == Some(
                (Record { key: key@, value: value@, created_at, is_tombstone }),
            ),
    {
        let bytes = Self::encode(key, value, created_at, is_tombstone);
        let offset = self.size;
        proof {
            let rec = Record { key: key@, value: value@, created_at, is_tombstone };
            lemma_record_round_trip(self.log@, rec, Seq::empty());
            assert(self.log@ + record_bytes(rec) + Seq::<u8>::empty() =~= self.log@ + bytes@);
        }
        self.size = self.size + bytes.len();
        self.head_offset = offset;
        self.log = Ghost(self.log@ + bytes@);
        (offset, bytes)
    }

    /// Moves the head: the offset of the most recent record known to be in a
    /// sorted table.
    pub fn set_head(&mut self, head_offset: usize)
        ensures
            final(self).head_offset == head_offset,
            final(self).tail_offset == old(self).tail_offset,
            final(self).size == old(self).size,
            final(self).log == old(self).log,
    {
        self.head_offset = head_offset;
    }

    /// Moves the tail: the offset below which the log may be reclaimed.
    pub fn set_tail(&mut self, tail_offset: usize)
        ensures
            final(self).tail_offset == tail_offset,
            final(self).head_offset == old(self).head_offset,
            final(self).size == old(self).size,
            final(self).log == old(self).log,
    {
        self.tail_offset = tail_offset;
    }

    /// Forgets the whole log.
    pub fn clear_all(&mut self)
        ensures
            final(self).wf(),
            final(self).size == 0,
            final(self).head_offset == 0,
            final(self).tail_offset == 0,
            final(self).log@ == Seq::<u8>::empty(),
    {
        self.head_offset = 0;
        self.tail_offset = 0;
        self.size = 0;
        self.log = Ghost(Seq::empty());
    }
}

} // verus!
