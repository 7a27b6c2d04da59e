use lsmkv::bloom_filter::FilterRate;
use lsmkv::compaction::bucket::{Bucket, BucketMap};
use lsmkv::compaction::merge::{
    compact, entry_survives, is_ascending, merge_all, merge_two, purge, Expiry,
};
use lsmkv::memtable::inmemory::{Entry, InMemoryTable};
use lsmkv::sstable::sst::SSTable;
use lsmkv::sstable::table::Table;
use lsmkv::storage_engine::storage::SizeUnit;

fn e(key: &str, offset: usize, at: u64, tombstone: bool) -> Entry<Vec<u8>, usize> {
    Entry::new(key.as_bytes().to_vec(), offset, at, tombstone)
}

fn flat(entries: &[Entry<Vec<u8>, usize>]) -> Vec<(String, usize, u64, bool)> {
    entries
        .iter()
        .map(|x| (String::from_utf8(x.key.clone()).unwrap(), x.val_offset, x.created_at, x.is_tombstone))
        .collect()
}

fn no_expiry() -> Expiry {
    Expiry { now: 0, tombstone_gc_grace_millis: 0, enable_ttl: false, entry_ttl_millis: 0 }
}

#[test]
fn ascending_means_strictly_ascending() {
    assert!(is_ascending(&vec![]));
    assert!(is_ascending(&vec![e("a", 0, 0, false)]));
    assert!(is_ascending(&vec![e("a", 0, 0, false), e("ab", 0, 0, false), e("b", 0, 0, false)]));
    assert!(!is_ascending(&vec![e("a", 0, 0, false), e("a", 1, 1, false)]));
    assert!(!is_ascending(&vec![e("b", 0, 0, false), e("a", 0, 0, false)]));
}

#[test]
fn merge_keeps_every_key_once_in_order() {
    let a = vec![e("a", 1, 10, false), e("c", 2, 10, false), e("e", 3, 10, false)];
    let b = vec![e("b", 4, 10, false), e("c", 5, 20, false), e("f", 6, 10, false)];
    let merged = merge_two(&a, &b);
    assert_eq!(
        flat(&merged),
        vec![
            ("a".to_string(), 1, 10, false),
            ("b".to_string(), 4, 10, false),
            ("c".to_string(), 5, 20, false),
            ("e".to_string(), 3, 10, false),
            ("f".to_string(), 6, 10, false),
        ]
    );
    assert!(is_ascending(&merged));
}

#[test]
fn merge_prefers_the_later_entry_and_the_first_table_on_a_tie() {
    let a = vec![e("k", 1, 10, false), e("t", 2, 5, false), e("u", 3, 9, true)];
    let b = vec![e("k", 4, 9, true), e("t", 5, 5, true), e("u", 6, 10, false)];
    assert_eq!(
        flat(&merge_two(&a, &b)),
        vec![("k".to_string(), 1, 10, false), ("t".to_string(), 2, 5, false), ("u".to_string(), 6, 10, false)]
    );
    assert_eq!(
        flat(&merge_two(&b, &a)),
        vec![("k".to_string(), 1, 10, false), ("t".to_string(), 5, 5, true), ("u".to_string(), 6, 10, false)]
    );
}

#[test]
fn merge_with_nothing_is_a_copy() {
    let a = vec![e("a", 1, 10, false), e("b", 2, 11, true)];
    assert_eq!(flat(&merge_two(&a, &vec![])), flat(&a));
    assert_eq!(flat(&merge_two(&vec![], &a)), flat(&a));
    assert!(merge_two(&vec![], &vec![]).is_empty());
    assert!(merge_all(&vec![]).is_empty());
    assert_eq!(flat(&merge_all(&vec![a.clone()])), flat(&a));
}

#[test]
fn merge_of_many_tables_keeps_the_newest_of_each_key() {
    let tables = vec![
        vec![e("a", 1, 1, false), e("b", 2, 5, false)],
        vec![e("b", 3, 7, false), e("c", 4, 2, false)],
        vec![e("a", 5, 3, true), e("b", 6, 6, false), e("d", 7, 1, false)],
        vec![],
    ];
    assert_eq!(
        flat(&merge_all(&tables)),
        vec![
            ("a".to_string(), 5, 3, true),
            ("b".to_string(), 3, 7, false),
            ("c".to_string(), 4, 2, false),
            ("d".to_string(), 7, 1, false),
        ]
    );
}

#[test]
fn tombstones_go_after_their_grace_period() {
    let expiry = Expiry { now: 1000, tombstone_gc_grace_millis: 100, enable_ttl: false, entry_ttl_millis: 0 };
    assert!(entry_survives(900, true, &expiry));
    assert!(!entry_survives(899, true, &expiry));
    assert!(entry_survives(0, false, &expiry));
    assert!(entry_survives(u64::MAX, true, &expiry));
}

#[test]
fn entries_go_after_their_time_to_live() {
    let expiry = Expiry { now: 1000, tombstone_gc_grace_millis: 1000, enable_ttl: true, entry_ttl_millis: 10 };
    assert!(entry_survives(990, false, &expiry));
    assert!(!entry_survives(989, false, &expiry));
    assert!(!entry_survives(989, true, &expiry));
    let off = Expiry { enable_ttl: false, ..expiry };
    assert!(entry_survives(0, false, &off));
}

#[test]
fn purge_keeps_the_survivors_in_order() {
    let expiry = Expiry { now: 1000, tombstone_gc_grace_millis: 100, enable_ttl: false, entry_ttl_millis: 0 };
    let entries = vec![e("a", 1, 10, true), e("b", 2, 10, false), e("c", 3, 950, true), e("d", 4, 899, true)];
    assert_eq!(
        flat(&purge(entries, &expiry)),
        vec![("b".to_string(), 2, 10, false), ("c".to_string(), 3, 950, true)]
    );
}

#[test]
fn compaction_output_is_sorted_without_duplicates_or_superseded_entries() {
    let tables = vec![
        vec![e("a", 1, 100, false), e("k", 2, 100, false), e("z", 3, 100, false)],
        vec![e("k", 4, 200, true)],
        vec![e("a", 5, 300, false), e("z", 6, 50, true)],
    ];
    let expiry = Expiry { now: 10_000, tombstone_gc_grace_millis: 1000, enable_ttl: false, entry_ttl_millis: 0 };
    let out = compact(&tables, &expiry);
    assert_eq!(flat(&out), vec![("a".to_string(), 5, 300, false), ("z".to_string(), 3, 100, false)]);
    let kept = compact(&tables, &Expiry { now: 1100, ..expiry });
    assert_eq!(
        flat(&kept),
        vec![("a".to_string(), 5, 300, false), ("k".to_string(), 4, 200, true), ("z".to_string(), 3, 100, false)]
    );
    assert_eq!(flat(&compact(&tables, &no_expiry())).len(), 3);
}

fn sized(name: &str, size: u64) -> Table {
    let mut t = Table::new(name.to_string(), format!("{}/data", name), format!("{}/index", name));
    t.size = size;
    t
}

#[test]
fn average_is_the_total_over_the_count_rounded_down() {
    assert_eq!(Bucket::compute_average(&vec![]), 0);
    assert_eq!(Bucket::compute_average(&vec![sized("a", 10)]), 10);
    assert_eq!(Bucket::compute_average(&vec![sized("a", 10), sized("b", 15)]), 12);
    assert_eq!(Bucket::compute_average(&vec![sized("a", u64::MAX), sized("b", u64::MAX)]), u64::MAX);
}

#[test]
fn window_is_a_share_of_the_average_both_ends_included() {
    let b = Bucket::new_with_id_dir_average_and_sstables("d".to_string(), 1, vec![sized("a", 100)], 0);
    assert_eq!(b.avarage_size, 100);
    assert!(b.fits(50, 50, 150));
    assert!(b.fits(150, 50, 150));
    assert!(!b.fits(49, 50, 150));
    assert!(!b.fits(151, 50, 150));
    let given = Bucket::new_with_id_dir_average_and_sstables("d".to_string(), 1, vec![sized("a", 100)], 7);
    assert_eq!(given.avarage_size, 7);
}

#[test]
fn a_table_joins_the_first_bucket_whose_window_holds_it() {
    let mut buckets = BucketMap::new("root/buckets".to_string());
    let first = buckets.place_table(100, 1, 5000, 11, 50, 150).unwrap();
    assert_eq!(buckets.buckets.len(), 1);
    assert_eq!(buckets.buckets[0].id, 11);
    assert_eq!(buckets.buckets[0].avarage_size, 100);
    assert!(buckets.buckets[0].dir.starts_with("root/buckets/bucket"));
    assert_eq!(first.dir, format!("{}/sstable_5000", buckets.buckets[0].dir));
    assert_eq!(first.data_file_path, format!("{}/data_5000.bin", first.dir));
    assert_eq!(first.index_file_path, format!("{}/index_5000.bin", first.dir));
    assert_eq!(first.size, 100);
    assert_eq!(first.hotness, 1);

    let second = buckets.place_table(140, 1, 5001, 12, 50, 150).unwrap();
    assert_eq!(buckets.buckets.len(), 1);
    assert_eq!(buckets.buckets[0].sstables.len(), 2);
    assert_eq!(buckets.buckets[0].avarage_size, 120);
    assert!(second.dir.starts_with(&buckets.buckets[0].dir));

    let third = buckets.place_table(1000, 1, 5002, 12, 50, 150).unwrap();
    assert_eq!(buckets.buckets.len(), 2);
    assert_eq!(buckets.buckets[1].id, 12);
    assert_eq!(buckets.buckets[1].sstables.len(), 1);
    assert!(third.dir.starts_with(&buckets.buckets[1].dir));
    assert_eq!(buckets.position(12), Some(1));
    assert_eq!(buckets.position(13), None);
    assert_eq!(buckets.choose_bucket(1000, 50, 150), Some(1));
    assert_eq!(buckets.choose_bucket(10, 50, 150), None);
}

#[test]
fn a_taken_identifier_cannot_start_a_new_bucket() {
    let mut buckets = BucketMap::new("b".to_string());
    buckets.place_table(100, 0, 1, 7, 50, 150).unwrap();
    let r = buckets.place_table(10_000, 0, 2, 7, 50, 150);
    assert!(matches!(r, Err(lsmkv::err::StorageEngineError::FailedToInsertToBucket(_))));
    assert_eq!(buckets.buckets.len(), 1);
    assert_eq!(buckets.buckets[0].sstables.len(), 1);
    buckets.clear_all();
    assert!(buckets.buckets.is_empty());
    buckets.set_buckets(vec![
        Bucket::new_with_id_dir_average_and_sstables("b/one".to_string(), 1, vec![], 0),
        Bucket::new_with_id_dir_average_and_sstables("b/two".to_string(), 2, vec![sized("t", 9)], 0),
    ]);
    assert_eq!(buckets.buckets.len(), 2);
    assert_eq!(buckets.position(2), Some(1));
    assert_eq!(buckets.buckets[1].avarage_size, 9);
}

#[test]
fn bucket_directory_carries_the_hyphenated_uuid() {
    let mut buckets = BucketMap::new("b".to_string());
    buckets.place_table(1, 0, 1, 0x550e8400_e29b_41d4_a716_446655440000, 50, 150).unwrap();
    assert_eq!(buckets.buckets[0].dir, "b/bucket550e8400-e29b-41d4-a716-446655440000");
}

#[test]
fn a_memtable_is_written_out_as_a_table_in_a_bucket() {
    let mut t = InMemoryTable::with_specified_capacity_and_rate(SizeUnit::Bytes, 1000, FilterRate::default());
    for (i, k) in ["b", "a", "c"].iter().enumerate() {
        t.insert(&e(k, i, 10 + i as u64, false)).unwrap();
    }
    let mut buckets = BucketMap::new("b".to_string());
    let (table, files) = buckets.insert_to_appropriate_bucket(&t, 3, 77, 9, 50, 150, 2).unwrap();
    assert_eq!(table.size as usize, files.data.len());
    assert_eq!(files.data.len(), 3 * 22);
    assert_eq!(table.hotness, 3);
    let back = SSTable::read_all(&files.data);
    assert_eq!(
        flat(&back),
        vec![("a".to_string(), 1, 11, false), ("b".to_string(), 0, 10, false), ("c".to_string(), 2, 12, false)]
    );
    assert_eq!(buckets.buckets[0].sstables[0].data_file_path, table.data_file_path);
}
