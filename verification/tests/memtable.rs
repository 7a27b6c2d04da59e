use lsmkv::bloom_filter::FilterRate;
use lsmkv::consts::WRITE_BUFFER_SIZE;
use lsmkv::err::StorageEngineError;
use lsmkv::memtable::inmemory::{Entry, InMemoryTable, ENTRY_OVERHEAD, TABLE_ID_LEN};
use lsmkv::storage_engine::storage::SizeUnit;

fn entry(key: &[u8], offset: usize, at: u64) -> Entry<Vec<u8>, usize> {
    Entry::new(key.to_vec(), offset, at, false)
}

#[test]
fn entry_new_keeps_its_arguments() {
    let e = Entry::new(vec![1, 2], 7, 99, true);
    assert_eq!(e.key, vec![1, 2]);
    assert_eq!(e.val_offset, 7);
    assert_eq!(e.created_at, 99);
    assert!(e.is_tombstone);
    let c = e.clone();
    assert_eq!(c.key, e.key);
    assert_eq!(c.val_offset, 7);
}

#[test]
fn entry_expires_strictly_after_its_deadline() {
    let e = entry(b"k", 0, 1000);
    assert!(!e.has_expired_at(50, 1050));
    assert!(e.has_expired_at(50, 1051));
    assert!(!e.has_expired_at(u64::MAX, u64::MAX));
}

#[test]
fn entry_from_the_far_future_has_not_expired() {
    let e = entry(b"k", 0, u64::MAX);
    assert!(!e.has_expired(1));
    let old = entry(b"k", 0, 0);
    assert!(old.has_expired(0));
}

#[test]
fn test_new() {
    let mem_table = InMemoryTable::new();
    assert_eq!(mem_table.capacity, 1 * 1024);
    assert_eq!(mem_table.capacity, WRITE_BUFFER_SIZE);
    assert_eq!(mem_table.size, 0);
    assert!(!mem_table.read_only);
}

#[test]
fn capacity_is_kept_in_bytes() {
    let t = InMemoryTable::with_specified_capacity_and_rate(SizeUnit::Kilobytes, 3, FilterRate::default());
    assert_eq!(t.capacity(), 3072);
    assert_eq!(t.size_unit(), SizeUnit::Bytes);
    assert_eq!(t.false_positive_rate(), FilterRate::default());
    assert_eq!(t.get_bloom_filter().bit_vec.len(), 576);
}

#[test]
fn test_insert() {
    let mut mem_table = InMemoryTable::new();
    let k1 = vec![1, 2, 3, 4];
    let k2 = vec![5, 6, 7, 8];
    mem_table.insert(&entry(&k1, 10, 1)).unwrap();
    assert_eq!(mem_table.size(), k1.len() + ENTRY_OVERHEAD);
    assert_eq!(mem_table.size(), 17);
    let prev = mem_table.size();
    mem_table.insert(&entry(&k2, 11, 2)).unwrap();
    assert_eq!(mem_table.size(), prev + k2.len() + 13);
}

#[test]
fn test_get() {
    let mut mem_table = InMemoryTable::new();
    mem_table.insert(&entry(&[1, 2, 3, 4], 10, 1)).unwrap();
    mem_table.insert(&entry(&[5, 6, 7, 8], 11, 2)).unwrap();
    assert_eq!(mem_table.get(&vec![1, 2, 3, 4]).unwrap(), Some((10, 1, false)));
    assert_eq!(mem_table.get(&vec![5, 6, 7, 8]).unwrap(), Some((11, 2, false)));
    assert_eq!(mem_table.get(&vec![19, 11, 12, 13]).unwrap(), None);
}

#[test]
fn test_return_latest_value() {
    let mut mem_table = InMemoryTable::new();
    let k = vec![1, 2, 3, 4];
    mem_table.insert(&entry(&k, 10, 1)).unwrap();
    mem_table.insert(&entry(&k, 11, 2)).unwrap();
    mem_table.insert(&entry(&k, 12, 3)).unwrap();
    assert_eq!(mem_table.get(&k).unwrap().unwrap(), (12, 3, false));
    assert_eq!(mem_table.entries().len(), 1);
}

#[test]
fn test_update() {
    let mut mem_table = InMemoryTable::new();
    let k = vec![1, 2, 3, 4];
    mem_table.insert(&entry(&k, 10, 1)).unwrap();
    let size = mem_table.size();
    mem_table.update(&entry(&k, 11, 2)).unwrap();
    assert_eq!(mem_table.get(&k).unwrap().unwrap(), (11, 2, false));
    assert_eq!(mem_table.size(), size);
    let unknown = entry(&[0, 0, 0, 0], 10, 3);
    assert!(matches!(mem_table.update(&unknown), Err(StorageEngineError::KeyNotFoundInMemTable)));
    assert_eq!(mem_table.get(&vec![0, 0, 0, 0]).unwrap(), None);
}

#[test]
fn test_upsert() {
    let mut mem_table = InMemoryTable::new();
    let k = vec![1, 2, 3, 4];
    mem_table.insert(&entry(&k, 10, 1)).unwrap();
    mem_table.upsert(&entry(&k, 11, 2)).unwrap();
    assert_eq!(mem_table.get(&k).unwrap().unwrap().0, 11);
    mem_table.upsert(&entry(&[5, 6, 7, 8], 14, 3)).unwrap();
    assert_eq!(mem_table.get(&vec![5, 6, 7, 8]).unwrap().unwrap().0, 14);
}

#[test]
fn test_delete() {
    let mut mem_table = InMemoryTable::new();
    let k = vec![1, 2, 3, 4];
    mem_table.insert(&entry(&k, 10, 1)).unwrap();
    mem_table.delete_at(&entry(&k, 20, 1), 77).unwrap();
    assert_eq!(mem_table.get(&k).unwrap().unwrap(), (20, 77, true));
    assert_eq!(mem_table.size(), 34);
    mem_table.delete(&entry(&k, 30, 1)).unwrap();
    let (offset, at, tombstone) = mem_table.get(&k).unwrap().unwrap();
    assert_eq!(offset, 30);
    assert!(tombstone);
    assert!(at > 1_600_000_000_000);
    let unknown = entry(&[9], 0, 0);
    assert!(matches!(mem_table.delete(&unknown), Err(StorageEngineError::KeyNotFoundInMemTable)));
    assert!(matches!(mem_table.delete_at(&unknown, 5), Err(StorageEngineError::KeyNotFoundInMemTable)));
}

#[test]
fn insert_fails_only_when_the_size_leaves_its_range() {
    let mut mem_table = InMemoryTable::new();
    mem_table.size = usize::MAX - 13;
    let r = mem_table.insert(&entry(&[1], 42, 1));
    assert!(matches!(
        r,
        Err(StorageEngineError::InsertToMemTableFailedError { value_offset: 42, .. })
    ));
    assert_eq!(mem_table.size, usize::MAX - 13);
    assert_eq!(mem_table.get(&vec![1]).unwrap(), None);
    mem_table.size = usize::MAX - 14;
    assert!(mem_table.insert(&entry(&[1], 42, 1)).is_ok());
    assert_eq!(mem_table.size, usize::MAX);
}

#[test]
fn is_full_counts_the_next_entry() {
    let mut t = InMemoryTable::with_specified_capacity_and_rate(SizeUnit::Bytes, 40, FilterRate::default());
    assert!(!t.is_full(5));
    assert!(t.is_full(27));
    assert!(!t.is_full(26));
    t.insert(&entry(b"abcd", 0, 1)).unwrap();
    assert!(t.is_full(10));
    assert!(!t.is_full(9));
    assert!(t.is_full(usize::MAX));
}

#[test]
fn biggest_and_smallest_key_follow_byte_order() {
    let mut t = InMemoryTable::new();
    assert!(matches!(t.find_biggest_key(), Err(StorageEngineError::BiggestKeyIndexError)));
    assert!(matches!(t.find_smallest_key(), Err(StorageEngineError::BiggestKeyIndexError)));
    for k in [&b"m"[..], b"zz", b"a", b"z", b"ab"] {
        t.insert(&entry(k, 0, 1)).unwrap();
    }
    assert_eq!(t.find_biggest_key().unwrap(), b"zz".to_vec());
    assert_eq!(t.find_biggest_key_from_table().unwrap(), b"zz".to_vec());
    assert_eq!(t.find_smallest_key().unwrap(), b"a".to_vec());
}

#[test]
fn entries_come_out_in_key_order() {
    let mut t = InMemoryTable::new();
    for (i, k) in [&b"m"[..], b"zz", b"a", b"z", b"ab"].iter().enumerate() {
        t.insert(&Entry::new(k.to_vec(), i, i as u64 + 10, i % 2 == 0)).unwrap();
    }
    let entries = t.entries();
    let keys: Vec<Vec<u8>> = entries.iter().map(|e| e.key.clone()).collect();
    assert_eq!(keys, vec![b"a".to_vec(), b"ab".to_vec(), b"m".to_vec(), b"z".to_vec(), b"zz".to_vec()]);
    assert_eq!(entries[0].val_offset, 2);
    assert_eq!(entries[0].created_at, 12);
    assert!(entries[0].is_tombstone);
    assert_eq!(entries[4].val_offset, 1);
    assert!(!entries[4].is_tombstone);
}

#[test]
fn clear_empties_the_table() {
    let mut t = InMemoryTable::new();
    t.insert(&entry(b"k", 1, 1)).unwrap();
    t.clear();
    assert_eq!(t.size(), 0);
    assert_eq!(t.get(&b"k".to_vec()).unwrap(), None);
    assert!(t.entries().is_empty());
    assert_eq!(t.capacity(), WRITE_BUFFER_SIZE);
    assert!(!t.get_bloom_filter().contains(&b"k".to_vec()));
}

#[test]
fn get_index_hands_out_the_entries() {
    let mut t = InMemoryTable::new();
    t.insert(&entry(b"k", 5, 6)).unwrap();
    let index = t.get_index();
    assert_eq!(index.len(), 1);
    assert_eq!(*index.get(&b"k".to_vec()).unwrap().value(), (5, 6, false));
}

#[test]
fn table_ids_are_ten_letters_or_digits() {
    let a = InMemoryTable::generate_table_id();
    let b = InMemoryTable::generate_table_id();
    assert_eq!(a.len(), TABLE_ID_LEN);
    assert_eq!(a.len(), 10);
    assert!(a.iter().all(|c| c.is_ascii_alphanumeric()));
    assert!(b.iter().all(|c| c.is_ascii_alphanumeric()));
    assert_ne!(a, b);
}

#[test]
fn range_does_nothing() {
    let t = InMemoryTable::new();
    InMemoryTable::range();
    assert_eq!(t.entries().len(), 0);
}
