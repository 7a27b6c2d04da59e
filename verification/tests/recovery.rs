use indexmap::IndexMap;
use lsmkv::cfg::Config;
use lsmkv::err::StorageEngineError;
use lsmkv::memtable::inmemory::{Entry, InMemoryTable, ENTRY_OVERHEAD};
use lsmkv::memtable::sealed::SealedTables;
use lsmkv::storage_engine::recovery::{FileImage, StoreImage, TableImage};
use lsmkv::storage_engine::storage::{ReadStep, SizeUnit, StorageEngine};
use lsmkv::value_log::ValueLog;

fn memtable_of(capacity: usize) -> InMemoryTable {
    InMemoryTable::with_specified_capacity_and_rate(
        SizeUnit::Bytes,
        capacity,
        Config::default().false_positive_rate,
    )
}

fn log_of(records: &[(&str, &str, u64, bool)]) -> (Vec<u8>, Vec<usize>) {
    let mut log = Vec::new();
    let mut offsets = Vec::new();
    for (key, value, at, tombstone) in records {
        offsets.push(log.len());
        log.extend_from_slice(&ValueLog::encode(key.as_bytes(), value.as_bytes(), *at, *tombstone));
    }
    (log, offsets)
}

fn directory(dir: &str, files: Vec<&str>) -> TableImage {
    TableImage {
        bucket_dir: String::new(),
        dir: dir.to_string(),
        files: files.into_iter().map(|p| FileImage { path: p.to_string(), bytes: vec![] }).collect(),
    }
}

#[test]
fn replaying_into_a_memtable_with_room_seals_nothing() {
    let mut active = memtable_of(100);
    let mut sealed: SealedTables = IndexMap::new();
    let entry = Entry::new(b"apple".to_vec(), 40, 7, false);
    let r = StorageEngine::replay_entry(&mut active, &mut sealed, &entry, b"unused".to_vec());
    assert!(r.is_ok());
    assert_eq!(sealed.len(), 0);
    assert_eq!(active.size, 5 + ENTRY_OVERHEAD);
    assert_eq!(active.get(&b"apple".to_vec()).unwrap(), Some((40, 7, false)));
    assert!(!active.read_only);
}

#[test]
fn replaying_into_a_full_memtable_seals_it_under_the_given_id() {
    let mut active = memtable_of(40);
    let mut sealed: SealedTables = IndexMap::new();
    let first = Entry::new(b"apple".to_vec(), 0, 1, false);
    let second = Entry::new(b"berry".to_vec(), 30, 2, true);
    let third = Entry::new(b"cherry".to_vec(), 60, 3, false);
    StorageEngine::replay_entry(&mut active, &mut sealed, &first, b"a".to_vec()).unwrap();
    assert_eq!(sealed.len(), 0);
    // 18 bytes are held; 18 more stay below 40.
    StorageEngine::replay_entry(&mut active, &mut sealed, &second, b"b".to_vec()).unwrap();
    assert_eq!(sealed.len(), 0);
    assert_eq!(active.size, 36);
    // 36 + 19 reaches the capacity: the memtable is sealed first.
    StorageEngine::replay_entry(&mut active, &mut sealed, &third, b"first".to_vec()).unwrap();
    assert_eq!(sealed.len(), 1);
    let (id, table) = sealed.get_index(0).unwrap();
    assert_eq!(id, &b"first".to_vec());
    assert!(table.read_only);
    assert_eq!(table.size, 36);
    assert_eq!(table.capacity, 40);
    assert_eq!(table.get(&b"apple".to_vec()).unwrap(), Some((0, 1, false)));
    assert_eq!(table.get(&b"berry".to_vec()).unwrap(), Some((30, 2, true)));
    assert_eq!(table.get(&b"cherry".to_vec()).unwrap(), None);
    assert!(!active.read_only);
    assert_eq!(active.capacity, 40);
    assert_eq!(active.size, 6 + ENTRY_OVERHEAD);
    assert_eq!(active.get(&b"cherry".to_vec()).unwrap(), Some((60, 3, false)));
    assert_eq!(active.get(&b"apple".to_vec()).unwrap(), None);
}

#[test]
fn replaying_fails_without_change_where_the_identifier_is_taken() {
    let mut active = memtable_of(30);
    let mut sealed: SealedTables = IndexMap::new();
    let first = Entry::new(b"apple".to_vec(), 0, 1, false);
    let second = Entry::new(b"berry".to_vec(), 30, 2, false);
    let third = Entry::new(b"cherry".to_vec(), 60, 3, false);
    StorageEngine::replay_entry(&mut active, &mut sealed, &first, b"x".to_vec()).unwrap();
    StorageEngine::replay_entry(&mut active, &mut sealed, &second, b"taken".to_vec()).unwrap();
    assert_eq!(sealed.len(), 1);
    let r = StorageEngine::replay_entry(&mut active, &mut sealed, &third, b"taken".to_vec());
    match r {
        Err(StorageEngineError::InsertToMemTableFailedError { value_offset, .. }) => {
            assert_eq!(value_offset, 60)
        },
        other => panic!("{:?}", other),
    }
    assert_eq!(sealed.len(), 1);
    assert_eq!(sealed.get_index(0).unwrap().1.get(&b"apple".to_vec()).unwrap(), Some((0, 1, false)));
    assert_eq!(active.size, 5 + ENTRY_OVERHEAD);
    assert_eq!(active.get(&b"berry".to_vec()).unwrap(), Some((30, 2, false)));
    assert_eq!(active.get(&b"cherry".to_vec()).unwrap(), None);
    // Under a free identifier the same entry goes through.
    StorageEngine::replay_entry(&mut active, &mut sealed, &third, b"free".to_vec()).unwrap();
    assert_eq!(sealed.len(), 2);
    assert_eq!(sealed.get_index(1).unwrap().0, &b"free".to_vec());
}

#[test]
fn a_log_that_ends_with_its_head_record_rebuilds_empty_memtables() {
    let rate = Config::default().false_positive_rate;
    let (log, offsets) = log_of(&[("a", "1", 5, false), ("b", "2", 6, false)]);
    let (active, sealed) =
        StorageEngine::recover_memtable(SizeUnit::Bytes, 1, rate, &log, offsets[1]).unwrap();
    assert_eq!(active.entries().len(), 0);
    assert_eq!(sealed.len(), 0);
    let (active, sealed) =
        StorageEngine::recover_memtable(SizeUnit::Bytes, 1, rate, &log, log.len()).unwrap();
    assert_eq!(active.entries().len(), 0);
    assert_eq!(sealed.len(), 0);
}

#[test]
fn a_replay_below_the_capacity_seals_nothing_and_counts_every_record_but_the_first() {
    let rate = Config::default().false_positive_rate;
    let (log, offsets) = log_of(&[
        ("head", "", 5, false),
        ("apple", "red", 6, false),
        ("berry", "blue", 7, false),
        ("apple", "", 8, true),
    ]);
    // Three records of 5 + 13 bytes each: 54 bytes stay below 55.
    let (active, sealed) =
        StorageEngine::recover_memtable(SizeUnit::Bytes, 55, rate, &log, 0).unwrap();
    assert_eq!(sealed.len(), 0);
    assert_eq!(active.size, 54);
    assert_eq!(active.get(&b"apple".to_vec()).unwrap(), Some((offsets[3], 8, true)));
    assert_eq!(active.get(&b"berry".to_vec()).unwrap(), Some((offsets[2], 7, false)));
    assert_eq!(active.get(&b"head".to_vec()).unwrap(), None);
    // One byte less and the last record finds the memtable full.
    let (active, sealed) =
        StorageEngine::recover_memtable(SizeUnit::Bytes, 54, rate, &log, 0).unwrap();
    assert_eq!(sealed.len(), 1);
    assert!(sealed.get_index(0).unwrap().1.read_only);
    assert_eq!(sealed.get_index(0).unwrap().1.entries().len(), 2);
    assert_eq!(active.get(&b"apple".to_vec()).unwrap(), Some((offsets[3], 8, true)));
    assert_eq!(active.get(&b"berry".to_vec()).unwrap(), None);
}

#[test]
fn opening_on_a_log_succeeds_where_the_replay_seals_nothing() {
    let (log, offsets) = log_of(&[
        ("head", "", 5, false),
        ("apple", "red", 6, false),
        ("berry", "blue", 7, false),
    ]);
    let image = StoreImage { vlog: log.clone(), tables: Vec::new() };
    let (engine, bytes) = StorageEngine::new("store".to_string(), &image).unwrap();
    assert!(bytes.is_empty());
    assert_eq!(engine.read_only_memtables.len(), 0);
    assert_eq!(engine.val_log.head_offset, 0);
    assert_eq!(engine.val_log.size, log.len());
    match engine.get("apple") {
        ReadStep::ReadValue { offset, created_at } => {
            assert_eq!((offset, created_at), (offsets[1], 6));
            assert_eq!(ValueLog::get(&log, offset), Some((b"red".to_vec(), false)));
        },
        other => panic!("{:?}", other),
    }
    assert!(matches!(engine.get("berry"), ReadStep::ReadValue { created_at: 7, .. }));
    assert!(matches!(engine.get("head"), ReadStep::Failed(_)));
}

fn whole() -> TableImage {
    directory(
        "root/buckets/bucket550e8400-e29b-41d4-a716-446655440000/sstable_1",
        vec!["d/data_1.bin", "d/index_1.bin"],
    )
}

fn short() -> TableImage {
    directory(
        "root/buckets/bucket550e8400-e29b-41d4-a716-446655440000/sstable_1",
        vec!["d/data_1.bin"],
    )
}

fn nameless() -> TableImage {
    directory("root/buckets/bucketnot-a-uuid/sstable_1", vec!["a", "b"])
}

fn open(vlog: Vec<u8>, tables: Vec<TableImage>) -> Result<(StorageEngine, Vec<u8>), StorageEngineError> {
    StorageEngine::new("r".to_string(), &StoreImage { vlog, tables })
}

#[test]
fn the_first_table_that_cannot_be_recovered_settles_the_error() {
    assert!(matches!(
        open(vec![1], vec![whole(), short(), nameless()]),
        Err(StorageEngineError::InvalidSSTableDirectoryError { .. })
    ));
    assert!(matches!(
        open(vec![1], vec![whole(), nameless(), short()]),
        Err(StorageEngineError::InvaidUUIDParseString { .. })
    ));
    let opened = open(vec![1], vec![whole(), whole()]).unwrap();
    assert_eq!(opened.0.bloom_filters.len(), 2);
    assert_eq!(opened.0.buckets.buckets.len(), 1);
    assert_eq!(opened.0.buckets.buckets[0].sstables.len(), 2);
    // On an empty log nothing is recovered, whatever the tables.
    assert!(open(Vec::new(), vec![short(), nameless()]).is_ok());
}

#[test]
fn numbers_are_named_in_decimal_digits() {
    assert_eq!(lsmkv::names::decimal_text(0), "0");
    assert_eq!(lsmkv::names::decimal_text(7), "7");
    assert_eq!(lsmkv::names::decimal_text(10), "10");
    assert_eq!(lsmkv::names::decimal_text(1234567890), "1234567890");
    assert_eq!(lsmkv::names::decimal_text(u64::MAX), "18446744073709551615");
    assert_eq!(lsmkv::names::decimal_text(u64::MAX), u64::MAX.to_string());
    for d in 0..10 {
        assert_eq!(lsmkv::names::digit_text(d), d.to_string());
    }
}
