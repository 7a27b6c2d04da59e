//! Buckets group sorted tables of similar size. A new table joins the first
//! bucket whose size window holds it, or starts a bucket of its own.

use crate::err::StorageEngineError;
use crate::keys::{lemma_key_lt_asymmetric, lemma_key_lt_irreflexive, lemma_key_lt_transitive};
use crate::memtable::index::{lists_in_order, IndexValue};
use crate::memtable::inmemory::{Entry, InMemoryTable};
use crate::names::{decimal, decimal_text, uuid_text, uuid_to_text};
use crate::sparse_index::index_of;
use crate::sstable::sst::{data_of, item_encodable, items_of, sparse_marks, SSTable, SstFiles};
use crate::sstable::table::Table;
use crate::storage_engine::storage::{join_path, joined_path};
use vstd::prelude::*;
use vstd::string::StringExecFns;

verus! {

/// The identifier of a bucket: the value of a UUID.
pub type BucketID = u128;

/// A bucket: a directory of sorted tables of similar size.
#[derive(Debug)]
pub struct Bucket {
    pub id: BucketID,
    pub dir: String,
    pub avarage_size: u64,
    pub sstables: Vec<Table>,
}

/// The buckets of a store, in the order in which they were made. No
/// identifier occurs twice.
#[derive(Debug)]
pub struct BucketMap {
    pub dir: String,
    pub buckets: Vec<Bucket>,
}

/// The sizes of `tables` added up.
pub open spec fn total_size(tables: Seq<Table>) -> int
    decreases tables.len(),
{
    if tables.len() == 0 {
        0
    } else {
        total_size(tables.drop_last()) + tables.last().size
    }
}

/// The average size of `tables`, rounded down; zero where there is none.
pub open spec fn average_size(tables: Seq<Table>) -> int {
    if tables.len() == 0 {
        0
    } else {
        total_size(tables) / (tables.len() as int)
    }
}

/// Whether a table of `size` bytes lies in the window of a bucket whose
/// tables have `average` bytes on average: between `low_percent` and
/// `high_percent` of the average, both included.
pub open spec fn in_window(average: u64, size: u64, low_percent: u64, high_percent: u64) -> bool {
    average * low_percent <= size * 100 && size * 100 <= average * high_percent
}

/// Whether one of `buckets` goes by `id`.
pub open spec fn has_bucket(buckets: Seq<Bucket>, id: BucketID) -> bool {
    exists|i: int| 0 <= i < buckets.len() && (#[trigger] buckets[i]).id == id
}

/// No two of `buckets` go by the same identifier.
pub open spec fn distinct_ids(buckets: Seq<Bucket>) -> bool {
    forall|i: int, j: int|
        0 <= i < buckets.len() && 0 <= j < buckets.len() && (#[trigger] buckets[i]).id == (
        #[trigger] buckets[j]).id ==> i == j
}

/// The position of the first of `buckets` whose window holds `size`, or the
/// number of buckets where no window does.
pub open spec fn first_fit(buckets: Seq<Bucket>, size: u64, low_percent: u64, high_percent: u64) -> int
    decreases buckets.len(),
{
    if buckets.len() == 0 {
        0
    } else {
        let earlier = first_fit(buckets.drop_last(), size, low_percent, high_percent);
        if earlier < buckets.len() - 1 {
            earlier
        } else if in_window(buckets.last().avarage_size, size, low_percent, high_percent) {
            buckets.len() - 1
        } else {
            buckets.len() as int
        }
    }
}

/// The directory of the bucket `id` below `buckets_dir`.
pub open spec fn bucket_dir_name(buckets_dir: Seq<char>, id: BucketID) -> Seq<char> {
    joined_path(buckets_dir, "bucket"@ + uuid_text(id))
}

/// The directory of the table made at `created_at` in the bucket at
/// `bucket_dir`.
pub open spec fn sstable_dir_name(bucket_dir: Seq<char>, created_at: u64) -> Seq<char> {
    joined_path(bucket_dir, "sstable_"@ + decimal(created_at as nat))
}

/// The data file of the table made at `created_at` in `sstable_dir`.
pub open spec fn data_file_name(sstable_dir: Seq<char>, created_at: u64) -> Seq<char> {
    joined_path(sstable_dir, "data_"@ + decimal(created_at as nat) + ".bin"@)
}

/// The index file of the table made at `created_at` in `sstable_dir`.
pub open spec fn index_file_name(sstable_dir: Seq<char>, created_at: u64) -> Seq<char> {
    joined_path(sstable_dir, "index_"@ + decimal(created_at as nat) + ".bin"@)
}

/// Whether `table` is the handle of the table made at `created_at` in the
/// bucket at `bucket_dir`, of `size` bytes and with `hotness`.
pub open spec fn is_handle(
    table: Table,
    bucket_dir: Seq<char>,
    created_at: u64,
    hotness: u64,
    size: u64,
) -> bool {
    &&& table.dir@ == sstable_dir_name(bucket_dir, created_at)
    &&& table.data_file_path@ == data_file_name(table.dir@, created_at)
    &&& table.index_file_path@ == index_file_name(table.dir@, created_at)
    &&& table.hotness == hotness
    &&& table.size == size
}

/// Whether `files` are the files of a table that holds exactly the entries
/// of `m`, in ascending key order, with a mark at every `interval`-th entry.
pub open spec fn is_image_of(files: SstFiles, m: Map<Seq<u8>, IndexValue>, interval: int) -> bool {
    exists|entries: Seq<Entry<Vec<u8>, usize>>|
        lists_in_order(entries, m) && files.data@ == data_of(#[trigger] items_of(entries))
            && files.index@ == index_of(sparse_marks(items_of(entries), interval))
}

/// The number of bytes of the data file of a table that holds exactly the
/// entries of `m`.
pub open spec fn image_size(m: Map<Seq<u8>, IndexValue>) -> nat {
    choose|n: nat| is_size_of_image(m, n)
}

/// Whether a listing of `m` in ascending key order has a data file of `n`
/// bytes.
pub open spec fn is_size_of_image(m: Map<Seq<u8>, IndexValue>, n: nat) -> bool {
    exists|entries: Seq<Entry<Vec<u8>, usize>>|
        lists_in_order(entries, m) && n == data_of(#[trigger] items_of(entries)).len()
}

/// Two listings of one memtable in ascending key order have the same keys
/// in their first `n` places.
pub proof fn lemma_listings_agree(
    a: Seq<Entry<Vec<u8>, usize>>,
    b: Seq<Entry<Vec<u8>, usize>>,
    m: Map<Seq<u8>, IndexValue>,
    n: int,
)
    requires
        lists_in_order(a, m),
        lists_in_order(b, m),
        0 <= n <= a.len(),
        n <= b.len(),
    ensures
        forall|p: int| 0 <= p < n ==> (#[trigger] a[p]).key@ == b[p].key@,
    decreases n,
{
    if n > 0 {
        lemma_listings_agree(a, b, m, n - 1);
        let i = n - 1;
        let key = a[i].key@;
        assert(m.dom().contains(a[i].key@));
        let j = choose|j: int| 0 <= j < b.len() && b[j].key@ == key;
        if j < i {
            assert(a[j].key@ == b[j].key@);
            assert(key_lt_of(a, j, i));
            lemma_key_lt_irreflexive(key);
        } else if j > i {
            let other = b[i].key@;
            assert(key_lt_of(b, i, j));
            assert(m.dom().contains(b[i].key@));
            let l = choose|l: int| 0 <= l < a.len() && a[l].key@ == other;
            if l < i {
                assert(a[l].key@ == b[l].key@);
                assert(key_lt_of(b, l, i));
                lemma_key_lt_irreflexive(other);
            } else if l == i {
                lemma_key_lt_irreflexive(key);
            } else {
                assert(key_lt_of(a, i, l));
                lemma_key_lt_asymmetric(key, other);
            }
        }
    }
}

/// The key at position `i` of a listing sorts before the key at position `j`.
pub open spec fn key_lt_of(entries: Seq<Entry<Vec<u8>, usize>>, i: int, j: int) -> bool {
    crate::keys::key_lt(entries[i].key@, entries[j].key@)
}

/// A memtable has one listing in ascending key order: two such listings hold
/// the same entries in the same places.
pub proof fn lemma_listing_unique(
    a: Seq<Entry<Vec<u8>, usize>>,
    b: Seq<Entry<Vec<u8>, usize>>,
    m: Map<Seq<u8>, IndexValue>,
)
    requires
        lists_in_order(a, m),
        lists_in_order(b, m),
    ensures
        items_of(a) == items_of(b),
{
    if a.len() < b.len() {
        lemma_listings_agree(a, b, m, a.len() as int);
        let n = a.len() as int;
        let key = b[n].key@;
        assert(m.dom().contains(b[n].key@));
        let l = choose|l: int| 0 <= l < a.len() && a[l].key@ == key;
        assert(a[l].key@ == b[l].key@);
        assert(key_lt_of(b, l, n));
        lemma_key_lt_irreflexive(key);
    } else if b.len() < a.len() {
        lemma_listings_agree(a, b, m, b.len() as int);
        let n = b.len() as int;
        let key = a[n].key@;
        assert(m.dom().contains(a[n].key@));
        let l = choose|l: int| 0 <= l < b.len() && b[l].key@ == key;
        assert(a[l].key@ == b[l].key@);
        assert(key_lt_of(a, l, n));
        lemma_key_lt_irreflexive(key);
    } else {
        lemma_listings_agree(a, b, m, a.len() as int);
        assert forall|p: int| 0 <= p < a.len() implies items_of(a)[p] == items_of(b)[p] by {
            assert(a[p].key@ == b[p].key@);
            assert(m.dom().contains(a[p].key@));
            assert(m.dom().contains(b[p].key@));
        }
        assert(items_of(a) =~= items_of(b));
    }
}

/// The data file of any listing of a memtable has the size of the memtable's
/// image.
pub proof fn lemma_image_size(entries: Seq<Entry<Vec<u8>, usize>>, m: Map<Seq<u8>, IndexValue>)
    requires
        lists_in_order(entries, m),
    ensures
        image_size(m) == data_of(items_of(entries)).len(),
{
    let n = data_of(items_of(entries)).len();
    assert(is_size_of_image(m, n));
    let chosen = image_size(m);
    assert(is_size_of_image(m, chosen));
    let other = choose|e: Seq<Entry<Vec<u8>, usize>>|
        lists_in_order(e, m) && chosen == data_of(#[trigger] items_of(e)).len();
    lemma_listing_unique(entries, other, m);
}

/// Whether `after` is `before` with `table` added and the average brought up
/// to date.
pub open spec fn grown_by(before: Bucket, after: Bucket, table: Table) -> bool {
    &&& after.id == before.id
    &&& after.dir == before.dir
    &&& after.sstables@ == before.sstables@.push(table)
    &&& after.avarage_size == average_size(after.sstables@)
}

/// Whether `after` is `before` with `table` placed at `at`: in the bucket
/// that stands there, or, where `at` is the number of buckets, in a new bucket
/// that holds nothing else. Every other bucket is as it was.
pub open spec fn placed_in(before: Seq<Bucket>, after: Seq<Bucket>, table: Table, at: int) -> bool {
    &&& 0 <= at <= before.len()
    &&& forall|i: int| 0 <= i < before.len() && i != at ==> #[trigger] after[i] == before[i]
    &&& at < before.len() ==> after.len() == before.len() && grown_by(before[at], after[at], table)
    &&& at == before.len() ==> after.len() == before.len() + 1 && after[at].sstables@ == seq![table]
        && after[at].avarage_size == table.size
}

/// Whether no bucket of `before` has left and none has lost a table: every
/// bucket of `before` stands at its place in `after` under its identifier and
/// its directory, and its tables are the first tables there.
pub open spec fn buckets_kept(before: Seq<Bucket>, after: Seq<Bucket>) -> bool {
    &&& before.len() <= after.len()
    &&& forall|i: int|
        0 <= i < before.len() ==> {
            &&& (#[trigger] after[i]).id == before[i].id
            &&& after[i].dir == before[i].dir
            &&& before[i].sstables@.len() <= after[i].sstables@.len()
            &&& forall|t: int|
                0 <= t < before[i].sstables@.len() ==> #[trigger] after[i].sstables@[t]
                    == before[i].sstables@[t]
        }
}

/// The first fit is a place among the buckets, or their number.
pub proof fn lemma_first_fit_in_range(
    buckets: Seq<Bucket>,
    size: u64,
    low_percent: u64,
    high_percent: u64,
)
    ensures
        0 <= first_fit(buckets, size, low_percent, high_percent) <= buckets.len(),
    decreases buckets.len(),
{
    if buckets.len() > 0 {
        lemma_first_fit_in_range(buckets.drop_last(), size, low_percent, high_percent);
    }
}

/// Placing a table keeps every bucket and every table that was there.
pub proof fn lemma_placing_keeps_buckets(
    before: Seq<Bucket>,
    after: Seq<Bucket>,
    table: Table,
    at: int,
)
    requires
        placed_in(before, after, table, at),
    ensures
        buckets_kept(before, after),
{
    assert forall|i: int| 0 <= i < before.len() implies {
        &&& (#[trigger] after[i]).id == before[i].id
        &&& after[i].dir == before[i].dir
        &&& before[i].sstables@.len() <= after[i].sstables@.len()
        &&& forall|t: int|
            0 <= t < before[i].sstables@.len() ==> #[trigger] after[i].sstables@[t]
                == before[i].sstables@[t]
    } by {
        if i != at {
            assert(after[i] == before[i]);
        }
    }
}

/// Buckets that are kept twice over are kept.
pub proof fn lemma_buckets_kept_twice(a: Seq<Bucket>, b: Seq<Bucket>, c: Seq<Bucket>)
    requires
        buckets_kept(a, b),
        buckets_kept(b, c),
    ensures
        buckets_kept(a, c),
{
    assert forall|i: int| 0 <= i < a.len() implies {
        &&& (#[trigger] c[i]).id == a[i].id
        &&& c[i].dir == a[i].dir
        &&& a[i].sstables@.len() <= c[i].sstables@.len()
        &&& forall|t: int|
            0 <= t < a[i].sstables@.len() ==> #[trigger] c[i].sstables@[t] == a[i].sstables@[t]
    } by {
        assert(b[i].id == a[i].id);
        assert forall|t: int| 0 <= t < a[i].sstables@.len() implies #[trigger] c[i].sstables@[t]
            == a[i].sstables@[t] by {
            assert(b[i].sstables@[t] == a[i].sstables@[t]);
        }
    }
}

/// The total size of tables is at most as many times the largest size as
/// there are tables.
pub proof fn lemma_total_size_bound(tables: Seq<Table>)
    ensures
        0 <= total_size(tables) <= tables.len() * u64::MAX,
    decreases tables.len(),
{
    if tables.len() > 0 {
        lemma_total_size_bound(tables.drop_last());
        assert((tables.len() - 1) * u64::MAX + u64::MAX == tables.len() * u64::MAX)
            by (nonlinear_arith);
    }
}

/// `a` followed by `b`.
pub fn concat_text(a: &str, b: &str) -> (r: String)
    ensures
        r@ == a@ + b@,
{
    String::from_str(a).concat(b)
}

impl Bucket {
    /// The average size of `tables`, rounded down; zero where there is none.
    pub fn compute_average(tables: &Vec<Table>) -> (r: u64)
        ensures
            r == average_size(tables@),
    {
        if tables.len() == 0 {
            return 0;
        }
        let mut total: u128 = 0;
        let mut i: usize = 0;
        while i < tables.len()
            invariant
                i <= tables@.len(),
                total == total_size(tables@.subrange(0, i as int)),
            decreases tables.len() - i,
        {
            proof {
                let next = tables@.subrange(0, i + 1);
                assert(next.drop_last() =~= tables@.subrange(0, i as int));
                assert(next.last() == tables@[i as int]);
                lemma_total_size_bound(next);
                assert(next.len() * u64::MAX <= usize::MAX * u64::MAX) by (nonlinear_arith)
                    requires
                        next.len() <= usize::MAX,
                ;
                assert(usize::MAX * u64::MAX <= 0xffff_ffff_ffff_ffff * 0xffff_ffff_ffff_ffff)
                    by (nonlinear_arith)
                    requires
                        usize::MAX <= 0xffff_ffff_ffff_ffff,
                        u64::MAX == 0xffff_ffff_ffff_ffff,
                ;
            }
            total = total + tables[i].size as u128;
            i += 1;
        }
        proof {
            assert(tables@.subrange(0, i as int) =~= tables@);
            lemma_total_size_bound(tables@);
            let n = tables@.len() as int;
            assert(total_size(tables@) / n <= u64::MAX) by (nonlinear_arith)
                requires
                    n > 0,
                    0 <= total_size(tables@) <= n * u64::MAX,
            ;
            assert(0 <= total_size(tables@) / n) by (nonlinear_arith)
                requires
                    n > 0,
                    0 <= total_size(tables@),
            ;
        }
        (total / (tables.len() as u128)) as u64
    }

    /// A bucket in `dir` that goes by `id` and holds `sstables`. An `average`
    /// of zero stands for "not known": the average is then computed.
    pub fn new_with_id_dir_average_and_sstables(
        dir: String,
        id: BucketID,
        sstables: Vec<Table>,
        average: u64,
    ) -> (r: Self)
        ensures
            r.id == id,
            r.dir == dir,
            r.sstables == sstables,
            r.avarage_size == if average == 0 {
                average_size(sstables@)
            } else {
                average as int
            },
    {
        let avarage_size = if average == 0 {
            Self::compute_average(&sstables)
        } else {
            average
        };
        Bucket { id, dir, avarage_size, sstables }
    }

    /// Whether a table of `size` bytes lies in the bucket's window.
    pub fn fits(&self, size: u64, low_percent: u64, high_percent: u64) -> (r: bool)
        ensures
            r == in_window(self.avarage_size, size, low_percent, high_percent),
    {
        assert(self.avarage_size * low_percent <= 0xffff_ffff_ffff_ffff * 0xffff_ffff_ffff_ffff
            && self.avarage_size * high_percent <= 0xffff_ffff_ffff_ffff * 0xffff_ffff_ffff_ffff)
            by (nonlinear_arith)
            requires
                0 <= self.avarage_size <= 0xffff_ffff_ffff_ffff,
                0 <= low_percent <= 0xffff_ffff_ffff_ffff,
                0 <= high_percent <= 0xffff_ffff_ffff_ffff,
        ;
        let scaled: u128 = size as u128 * 100;
        let low: u128 = self.avarage_size as u128 * low_percent as u128;
        let high: u128 = self.avarage_size as u128 * high_percent as u128;
        low <= scaled && scaled <= high
    }

    /// Adds `table` and brings the average up to date.
    pub fn add(&mut self, table: Table)
        ensures
            grown_by(*old(self), *final(self), table),
    {
        self.sstables.push(table);
        self.avarage_size = Self::compute_average(&self.sstables);
    }
}

impl BucketMap {
    /// No identifier occurs twice.
    pub open spec fn wf(&self) -> bool {
        distinct_ids(self.buckets@)
    }

    /// The buckets below `dir`, none yet.
    pub fn new(dir: String) -> (r: Self)
        ensures
            r.wf(),
            r.dir == dir,
            r.buckets@.len() == 0,
    {
        BucketMap { dir, buckets: Vec::new() }
    }

    /// Takes `buckets` as the buckets of the store.
    pub fn set_buckets(&mut self, buckets: Vec<Bucket>)
        requires
            distinct_ids(buckets@),
        ensures
            final(self).wf(),
            final(self).buckets == buckets,
            final(self).dir == old(self).dir,
    {
        self.buckets = buckets;
    }

    /// Forgets every bucket.
    pub fn clear_all(&mut self)
        ensures
            final(self).wf(),
            final(self).buckets@.len() == 0,
            final(self).dir == old(self).dir,
    {
        self.buckets = Vec::new();
    }

    /// The position of the bucket that goes by `id`.
    pub fn position(&self, id: BucketID) -> (r: Option<usize>)
        ensures
            r is Some <==> has_bucket(self.buckets@, id),
            r matches Some(i) ==> i < self.buckets@.len() && self.buckets@[i as int].id == id,
    {
        let mut i: usize = 0;
        while i < self.buckets.len()
            invariant
                i <= self.buckets@.len(),
                forall|j: int| 0 <= j < i ==> (#[trigger] self.buckets@[j]).id != id,
            decreases self.buckets.len() - i,
        {
            if self.buckets[i].id == id {
                return Some(i);
            }
            i += 1;
        }
        None
    }

    /// The position of the first bucket whose window holds `size`.
    pub fn choose_bucket(&self, size: u64, low_percent: u64, high_percent: u64) -> (r: Option<usize>)
        ensures
            r is Some <==> first_fit(self.buckets@, size, low_percent, high_percent)
                < self.buckets@.len(),
            r matches Some(i) ==> i == first_fit(self.buckets@, size, low_percent, high_percent),
    {
        let mut i: usize = 0;
        while i < self.buckets.len()
            invariant
                i <= self.buckets@.len(),
                first_fit(self.buckets@.subrange(0, i as int), size, low_percent, high_percent)
                    == i,
            decreases self.buckets.len() - i,
        {
            proof {
                let next = self.buckets@.subrange(0, i + 1);
                assert(next.drop_last() =~= self.buckets@.subrange(0, i as int));
                assert(next.last() == self.buckets@[i as int]);
            }
            if self.buckets[i].fits(size, low_percent, high_percent) {
                proof {
                    lemma_first_fit_stays(self.buckets@, i + 1, size, low_percent, high_percent);
                }
                return Some(i);
            }
            i += 1;
        }
        assert(self.buckets@.subrange(0, i as int) =~= self.buckets@);
        None
    }

    /// The directory of the bucket that a table of `size` bytes goes to: that
    /// of the first bucket whose window holds the size, or else that of a new
    /// bucket that goes by `fresh_id`.
    pub open spec fn target_dir(
        &self,
        size: u64,
        fresh_id: BucketID,
        low_percent: u64,
        high_percent: u64,
    ) -> Seq<char> {
        let at = first_fit(self.buckets@, size, low_percent, high_percent);
        if at < self.buckets@.len() {
            self.buckets@[at].dir@
        } else {
            bucket_dir_name(self.dir@, fresh_id)
        }
    }

    /// The handle that a table of `size` bytes made at `created_at` gets when
    /// it is placed.
    pub fn plan_table(
        &self,
        size: u64,
        hotness: u64,
        created_at: u64,
        fresh_id: BucketID,
        low_percent: u64,
        high_percent: u64,
    ) -> (r: Table)
        ensures
            is_handle(
                r,
                self.target_dir(size, fresh_id, low_percent, high_percent),
                created_at,
                hotness,
                size,
            ),
    {
        let stamp = decimal_text(created_at);
        let bucket_dir = match self.choose_bucket(size, low_percent, high_percent) {
            Some(i) => self.buckets[i].dir.clone(),
            None => {
                let name = concat_text("bucket", uuid_to_text(fresh_id).as_str());
                join_path(self.dir.as_str(), name.as_str())
            },
        };
        let dir_name = concat_text("sstable_", stamp.as_str());
        let dir = join_path(bucket_dir.as_str(), dir_name.as_str());
        let data_name = concat_text(concat_text("data_", stamp.as_str()).as_str(), ".bin");
        let index_name = concat_text(concat_text("index_", stamp.as_str()).as_str(), ".bin");
        let data_file_path = join_path(dir.as_str(), data_name.as_str());
        let index_file_path = join_path(dir.as_str(), index_name.as_str());
        Table { dir, data_file_path, index_file_path, hotness, size }
    }

    /// Places a table of `size` bytes made at `created_at`: in the first
    /// bucket whose window holds the size, or else in a new bucket that goes
    /// by `fresh_id`. Hands back the table's handle. Fails, changing nothing,
    /// where a new bucket is called for and `fresh_id` is taken.
    #[verifier::rlimit(30)]
    pub fn place_table(
        &mut self,
        size: u64,
        hotness: u64,
        created_at: u64,
        fresh_id: BucketID,
        low_percent: u64,
        high_percent: u64,
    ) -> (r: Result<Table, StorageEngineError>)
        requires
            old(self).wf(),
        ensures
            r is Ok <==> first_fit(old(self).buckets@, size, low_percent, high_percent)
                < old(self).buckets@.len() || !has_bucket(old(self).buckets@, fresh_id),
            r matches Err(e) ==> *final(self) == *old(self) && e is FailedToInsertToBucket,
            r matches Ok(table) ==> {
                let before = old(self).buckets@;
                let after = final(self).buckets@;
                let at = first_fit(before, size, low_percent, high_percent);
                &&& final(self).wf()
                &&& final(self).dir == old(self).dir
                &&& is_handle(
                    table,
                    old(self).target_dir(size, fresh_id, low_percent, high_percent),
                    created_at,
                    hotness,
                    size,
                )
                &&& forall|i: int| 0 <= i < before.len() && i != at ==> after[i] == before[i]
                &&& at < before.len() ==> after.len() == before.len() && grown_by(
                    before[at],
                    after[at],
                    table,
                )
                &&& at == before.len() ==> {
                    &&& after.len() == before.len() + 1
                    &&& after[at].id == fresh_id
                    &&& after[at].dir@ == bucket_dir_name(old(self).dir@, fresh_id)
                    &&& after[at].sstables@ == seq![table]
                    &&& after[at].avarage_size == size
                }
            },
    {
        let choice = self.choose_bucket(size, low_percent, high_percent);
        if choice.is_none() && self.position(fresh_id).is_some() {
            return Err(StorageEngineError::FailedToInsertToBucket(String::new()));
        }
        let table = self.plan_table(size, hotness, created_at, fresh_id, low_percent, high_percent);
        let handle = table.clone();
        match choice {
            Some(i) => {
                let mut bucket = Bucket {
                    id: self.buckets[i].id,
                    dir: String::new(),
                    avarage_size: 0,
                    sstables: Vec::new(),
                };
                std::mem::swap(&mut bucket, &mut self.buckets[i]);
                bucket.add(table);
                self.buckets.set(i, bucket);
            },
            None => {
                let name = concat_text("bucket", uuid_to_text(fresh_id).as_str());
                let bucket_dir = join_path(self.dir.as_str(), name.as_str());
                let mut sstables: Vec<Table> = Vec::new();
                sstables.push(table);
                proof {
                    assert(sstables@.drop_last() =~= Seq::<Table>::empty());
                    assert(total_size(sstables@) == size) by {
                        assert(total_size(sstables@.drop_last()) == 0);
                    }
                }
                let bucket = Bucket::new_with_id_dir_average_and_sstables(
                    bucket_dir,
                    fresh_id,
                    sstables,
                    0,
                );
                self.buckets.push(bucket);
            },
        }
        Ok(handle)
    }

    /// Writes `memtable` out as a sorted table and places it: in the first
    /// bucket whose window holds the table's size, or else in a new bucket
    /// that goes by `fresh_id`. Hands back the table's handle and the bytes of
    /// its two files. Fails, changing nothing, where a key of the memtable is
    /// too long for the table format, or where a new bucket is called for and
    /// `fresh_id` is taken.
    pub fn insert_to_appropriate_bucket(
        &mut self,
        memtable: &InMemoryTable,
        hotness: u64,
        created_at: u64,
        fresh_id: BucketID,
        low_percent: u64,
        high_percent: u64,
        sparse_interval: usize,
    ) -> (r: Result<(Table, SstFiles), StorageEngineError>)
        requires
            old(self).wf(),
            sparse_interval > 0,
        ensures
            r matches Err(e) ==> *final(self) == *old(self) && e is FailedToInsertToBucket,
            r is Ok <==> (forall|k: Seq<u8>| memtable@.dom().contains(k) ==> k.len() <= u32::MAX) && (
            first_fit(old(self).buckets@, image_size(memtable@) as u64, low_percent, high_percent)
                < old(self).buckets@.len() || !has_bucket(old(self).buckets@, fresh_id)),
            r matches Ok((table, files)) ==> {
                let before = old(self).buckets@;
                let after = final(self).buckets@;
                let at = first_fit(before, table.size, low_percent, high_percent);
                &&& final(self).wf()
                &&& final(self).dir == old(self).dir
                &&& is_image_of(files, memtable@, sparse_interval as int)
                &&& table.size == files.data@.len()
                &&& forall|k: Seq<u8>| memtable@.dom().contains(k) ==> k.len() <= u32::MAX
                &&& is_handle(
                    table,
                    old(self).target_dir(table.size, fresh_id, low_percent, high_percent),
                    created_at,
                    hotness,
                    table.size,
                )
                &&& forall|i: int| 0 <= i < before.len() && i != at ==> after[i] == before[i]
                &&& at < before.len() ==> after.len() == before.len() && grown_by(
                    before[at],
                    after[at],
                    table,
                )
                &&& at == before.len() ==> {
                    &&& !has_bucket(before, fresh_id)
                    &&& after.len() == before.len() + 1
                    &&& after[at].id == fresh_id
                    &&& after[at].dir@ == bucket_dir_name(old(self).dir@, fresh_id)
                    &&& after[at].sstables@ == seq![table]
                    &&& after[at].avarage_size == table.size
                }
            },
    {
        let entries = memtable.entries();
        let files = match SSTable::encode(&entries, sparse_interval) {
            Some(files) => files,
            None => {
                proof {
                    let i = choose|i: int|
                        0 <= i < entries@.len() && !item_encodable(
                            #[trigger] items_of(entries@)[i],
                        );
                    assert(memtable@.dom().contains(entries@[i].key@));
                }
                return Err(StorageEngineError::FailedToInsertToBucket(String::new()));
            },
        };
        proof {
            assert forall|k: Seq<u8>| memtable@.dom().contains(k) implies k.len() <= u32::MAX by {
                let i = choose|i: int| 0 <= i < entries@.len() && entries@[i].key@ == k;
                assert(item_encodable(items_of(entries@)[i]));
            }
        }
        let size = files.data.len() as u64;
        proof {
            lemma_image_size(entries@, memtable@);
        }
        match self.place_table(size, hotness, created_at, fresh_id, low_percent, high_percent) {
            Ok(table) => Ok((table, files)),
            Err(e) => Err(e),
        }
    }
}

/// A fit found among the first `n` buckets is the first fit among all.
pub proof fn lemma_first_fit_stays(
    buckets: Seq<Bucket>,
    n: int,
    size: u64,
    low_percent: u64,
    high_percent: u64,
)
    requires
        0 <= n <= buckets.len(),
        first_fit(buckets.subrange(0, n), size, low_percent, high_percent) < n,
    ensures
        first_fit(buckets, size, low_percent, high_percent) == first_fit(
            buckets.subrange(0, n),
            size,
            low_percent,
            high_percent,
        ),
    decreases buckets.len() - n,
{
    if n < buckets.len() {
        let next = buckets.subrange(0, n + 1);
        assert(next.drop_last() =~= buckets.subrange(0, n));
        lemma_first_fit_stays(buckets, n + 1, size, low_percent, high_percent);
    } else {
        assert(buckets.subrange(0, n) =~= buckets);
    }
}

} // verus!
