use lsmkv::cfg::Config;
use lsmkv::consts::{head_key, tail_key};
use lsmkv::err::StorageEngineError;
use lsmkv::storage_engine::compactor::{CompactionOutcome, PassStep};
use lsmkv::storage_engine::recovery::{FileImage, StoreImage, TableImage, FRESH_HEAD_OFFSET};
use lsmkv::storage_engine::storage::{
    resolve_table_hits, resolve_value, search_table, DirPath, ReadStep, SizeUnit, StorageEngine,
    WriteOutcome,
};
use lsmkv::value_log::ValueLog;
use rand::distributions::Alphanumeric;
use rand::Rng;
use std::collections::HashMap;

struct Store {
    engine: StorageEngine,
    vlog: Vec<u8>,
    files: HashMap<String, Vec<u8>>,
}

impl Store {
    fn open_with(config: &Config) -> Store {
        let image = StoreImage { vlog: Vec::new(), tables: Vec::new() };
        let (engine, bytes) =
            StorageEngine::new_with_custom_config("bump".to_string(), config, &image).unwrap();
        Store { engine, vlog: bytes, files: HashMap::new() }
    }

    fn open() -> Store {
        Store::open_with(&Config::default())
    }

    fn log(&mut self, out: &WriteOutcome) {
        assert_eq!(out.offset, self.vlog.len());
        self.vlog.extend_from_slice(&out.record);
    }

    fn put(&mut self, key: &str, value: &str) -> WriteOutcome {
        let out = self.engine.put(key, value).unwrap();
        self.log(&out);
        out
    }

    fn delete(&mut self, key: &str) -> WriteOutcome {
        let out = self.engine.delete(key).unwrap();
        self.log(&out);
        out
    }

    fn get(&self, key: &str) -> Result<(Vec<u8>, u64), StorageEngineError> {
        let step = match self.engine.get(key) {
            ReadStep::SearchTables(tables) => {
                let hits = tables
                    .iter()
                    .map(|t| {
                        search_table(
                            &self.files[&t.index_file_path],
                            &self.files[&t.data_file_path],
                            key.as_bytes(),
                        )
                    })
                    .collect();
                resolve_table_hits(&hits)
            },
            step => step,
        };
        match step {
            ReadStep::ReadValue { offset, created_at } => {
                resolve_value(ValueLog::get(&self.vlog, offset), created_at)
            },
            ReadStep::Failed(e) => Err(e),
            ReadStep::SearchTables(_) => unreachable!(),
        }
    }

    fn flush_all(&mut self) -> usize {
        let flushed = self.engine.flush_all_memtables().unwrap();
        let n = flushed.len();
        for f in flushed {
            assert!(self.files.insert(f.table.data_file_path.clone(), f.files.data).is_none());
            assert!(self.files.insert(f.table.index_file_path.clone(), f.files.index).is_none());
        }
        n
    }

    fn compact_at(&mut self, position: usize, now: u64) -> CompactionOutcome {
        let data: Vec<Vec<u8>> = self.engine.buckets.buckets[position]
            .sstables
            .iter()
            .map(|t| self.files[&t.data_file_path].clone())
            .collect();
        let out = self.engine.compact_bucket_at(position, &data, now, 0xabcdef).unwrap();
        if let Some(w) = &out.written {
            self.files.insert(w.table.data_file_path.clone(), w.files.data.clone());
            self.files.insert(w.table.index_file_path.clone(), w.files.index.clone());
        }
        for t in &out.removed {
            self.files.remove(&t.data_file_path);
            self.files.remove(&t.index_file_path);
        }
        out
    }

    fn image(&self) -> StoreImage {
        let mut tables = Vec::new();
        for b in &self.engine.buckets.buckets {
            for t in &b.sstables {
                tables.push(TableImage {
                    bucket_dir: b.dir.clone(),
                    dir: t.dir.clone(),
                    files: vec![
                        FileImage {
                            path: t.index_file_path.clone(),
                            bytes: self.files[&t.index_file_path].clone(),
                        },
                        FileImage {
                            path: t.data_file_path.clone(),
                            bytes: self.files[&t.data_file_path].clone(),
                        },
                    ],
                });
            }
        }
        StoreImage { vlog: self.vlog.clone(), tables }
    }

    fn reopen(&self) -> Store {
        let (engine, bytes) = StorageEngine::new_with_custom_config(
            "bump".to_string(),
            &self.engine.config,
            &self.image(),
        )
        .unwrap();
        assert!(bytes.is_empty());
        Store { engine, vlog: self.vlog.clone(), files: self.files.clone() }
    }
}

#[test]
fn dir_path_joins_the_parts_to_the_root() {
    let d = DirPath::build("bump1".to_string());
    assert_eq!(d.root, "bump1");
    assert_eq!(d.val_log, "bump1/v_log.bin");
    assert_eq!(d.buckets, "bump1/buckets");
    assert_eq!(d.meta, "bump1/meta");
    let nested = DirPath::build("/var/lib/store/".to_string());
    assert_eq!(nested.buckets, "/var/lib/store/buckets");
    let c = d.clone();
    assert_eq!(c.meta, d.meta);
}

#[test]
fn size_units_are_powers_of_1024() {
    assert_eq!(SizeUnit::Bytes.to_bytes(7), 7);
    assert_eq!(SizeUnit::Kilobytes.to_bytes(7), 7168);
    assert_eq!(SizeUnit::Megabytes.to_bytes(2), 2_097_152);
    assert_eq!(SizeUnit::Gigabytes.to_bytes(1), 1_073_741_824);
    assert_eq!(SizeUnit::Gigabytes.to_bytes(0), 0);
}

#[test]
fn a_fresh_store_opens_with_the_two_sentinels() {
    let s = Store::open();
    let tail = ValueLog::encode(&tail_key(), &[], 0, false).len();
    assert_eq!(tail, FRESH_HEAD_OFFSET);
    assert_eq!(s.vlog.len(), 2 * FRESH_HEAD_OFFSET);
    assert_eq!(s.engine.val_log.size, 44);
    assert_eq!(s.engine.val_log.head_offset, 22);
    assert_eq!(s.engine.val_log.tail_offset, 0);
    let records = ValueLog::recover(&s.vlog, 0);
    assert_eq!(records.len(), 2);
    assert_eq!(records[0].key, tail_key());
    assert_eq!(records[1].key, head_key());
    assert_eq!(records[0].created_at, records[1].created_at);
    let (tail_offset, at, tombstone) = s.engine.lookup_memtables(&tail_key()).unwrap();
    assert_eq!((tail_offset, tombstone), (0, false));
    assert_eq!(at, records[0].created_at);
    assert_eq!(s.engine.lookup_memtables(&head_key()).unwrap().0, 22);
    assert_eq!(s.engine.active_memtable.size(), 36);
    assert_eq!(s.engine.dir.val_log, "bump/v_log.bin");
    assert!(s.engine.buckets.buckets.is_empty());
    assert!(s.engine.bloom_filters.is_empty());
    assert_eq!(s.engine.buckets.dir, "bump/buckets");
}

#[test]
fn basic_read_your_writes() {
    let mut s = Store::open();
    let first = s.put("a", "1");
    let (v1, ts1) = s.get("a").unwrap();
    assert_eq!(v1, b"1");
    let second = s.put("a", "2");
    let (v2, ts2) = s.get("a").unwrap();
    assert_eq!(v2, b"2");
    assert!(ts2 > ts1);
    assert_eq!(first.offset, 44);
    assert_eq!(second.offset, 44 + 19);
    assert_eq!(s.engine.lookup_memtables(&b"a".to_vec()), Some((63, ts2, false)));
    let direct = s.engine.get_from_memtables(&b"a".to_vec(), &s.vlog).unwrap().unwrap();
    assert_eq!(direct, (b"2".to_vec(), ts2));
    assert!(s.engine.get_from_memtables(&b"zz".to_vec(), &s.vlog).is_none());
}

#[test]
fn update_is_a_put() {
    let mut s = Store::open();
    s.put("a", "1");
    let out = s.engine.update("a", "updated_key").unwrap();
    s.log(&out);
    assert_eq!(s.get("a").unwrap().0, b"updated_key");
}

#[test]
fn put_twice_reads_like_put_once() {
    let mut s = Store::open();
    s.put("k", "v");
    let once = s.get("k").unwrap().0;
    let records_once = ValueLog::recover(&s.vlog, 0).len();
    s.put("k", "v");
    assert_eq!(s.get("k").unwrap().0, once);
    assert_eq!(ValueLog::recover(&s.vlog, 0).len(), records_once + 1);
    assert_eq!(s.engine.active_memtable.entries().len(), 3);
}

#[test]
fn a_key_that_was_never_written_is_not_found() {
    let s = Store::open();
    assert!(matches!(s.get("nope"), Err(StorageEngineError::KeyNotFoundInAnySSTableError)));
}

#[test]
fn reserved_keys_are_rejected() {
    let mut s = Store::open();
    let size = s.engine.val_log.size;
    assert!(matches!(s.engine.put("\0HEAD", "x"), Err(StorageEngineError::ReservedKeyError)));
    assert!(matches!(s.engine.put("\0", "x"), Err(StorageEngineError::ReservedKeyError)));
    assert!(matches!(s.engine.delete("\0anything"), Err(StorageEngineError::ReservedKeyError)));
    assert_eq!(s.engine.val_log.size, size);
    assert!(s.engine.put("", "empty key is a user key").is_ok());
}

#[test]
fn tombstone_visibility() {
    let mut s = Store::open();
    s.put("k", "v");
    let out = s.delete("k");
    assert!(matches!(s.get("k"), Err(StorageEngineError::KeyFoundAsTombstoneInMemtableError)));
    let rec = ValueLog::decode(&s.vlog, out.offset).unwrap().0;
    assert!(rec.is_tombstone);
    assert_eq!(rec.key, b"k");
    assert_eq!(rec.value, vec![0, 0, 0, 0]);

    s.flush_all();
    assert!(matches!(s.get("k"), Err(StorageEngineError::KeyFoundAsTombstoneInSSTableError)));

    let grace = s.engine.config.tombstone_gc_grace_millis;
    let written = rec.created_at;
    s.compact_at(0, written + grace);
    assert!(matches!(s.get("k"), Err(StorageEngineError::KeyFoundAsTombstoneInSSTableError)));
    s.compact_at(0, written + grace + 1);
    assert!(matches!(s.get("k"), Err(StorageEngineError::KeyNotFoundInAnySSTableError)));
}

#[test]
fn deleting_an_unseen_key_records_a_tombstone() {
    let mut s = Store::open();
    s.delete("ghost");
    assert!(matches!(s.get("ghost"), Err(StorageEngineError::KeyFoundAsTombstoneInMemtableError)));
}

#[test]
fn a_write_after_a_delete_brings_the_key_back() {
    let mut s = Store::open();
    s.put("k", "1");
    s.delete("k");
    s.put("k", "2");
    assert_eq!(s.get("k").unwrap().0, b"2");
}

fn wait_for_the_clock() {
    let start = std::time::Instant::now();
    while start.elapsed() < std::time::Duration::from_millis(3) {}
}

fn small() -> Config {
    Config { max_buffer_write_number: 2, sparse_interval: 4, ..Config::default() }
}

#[test]
fn rollover_seals_the_full_memtable_and_keeps_every_key_readable() {
    let mut s = Store::open_with(&small());
    let mut rollovers = 0;
    let mut flush_requests = 0;
    for i in 0..500 {
        let out = s.put(&format!("key{:05}", i), &format!("value{}", i));
        if out.rolled_over {
            rollovers += 1;
            assert!(s.engine.read_only_memtables.len() == rollovers);
            let sealed = s.engine.read_only_memtables.get_index(rollovers - 1).unwrap().1;
            assert!(sealed.read_only);
            let head = sealed.get(&head_key()).unwrap().unwrap();
            assert_eq!(head.0, s.engine.val_log.head_offset);
            assert!(head.0 < out.offset);
            assert_eq!(s.engine.active_memtable.entries().len(), 1);
        }
        match out.flush {
            Some(id) => {
                flush_requests += 1;
                assert!(s.engine.read_only_memtables.len() > 2);
                assert_eq!(&id, s.engine.read_only_memtables.get_index(0).unwrap().0);
            },
            None => assert!(!out.rolled_over || s.engine.read_only_memtables.len() <= 2),
        }
    }
    assert!(rollovers > 5);
    assert_eq!(flush_requests, rollovers - 2);
    for i in 0..500 {
        assert_eq!(s.get(&format!("key{:05}", i)).unwrap().0, format!("value{}", i).as_bytes());
    }
}

#[test]
fn the_flusher_drains_the_queue_one_table_at_a_time() {
    let mut s = Store::open_with(&small());
    let mut requested = Vec::new();
    for i in 0..300 {
        if let Some(id) = s.put(&format!("key{:05}", i), "x").flush {
            requested.push(id);
        }
    }
    let sealed_before = s.engine.read_only_memtables.len();
    let buckets_before = s.engine.buckets.buckets.len();
    assert!(sealed_before > 2);
    let oldest = s.engine.read_only_memtables.get_index(0).unwrap().0.clone();
    let flushed = s.engine.flush_read_only(&oldest, 1).unwrap().unwrap();
    s.files.insert(flushed.table.data_file_path.clone(), flushed.files.data);
    s.files.insert(flushed.table.index_file_path.clone(), flushed.files.index);
    assert_eq!(s.engine.read_only_memtables.len(), sealed_before - 1);
    assert!(s.engine.buckets.buckets.len() >= buckets_before);
    assert!(s.engine.flush_read_only(&oldest, 1).unwrap().is_none());
    assert_eq!(s.engine.bloom_filters.len(), 1);
    assert!(s.engine.biggest_key_index.contains_path(&flushed.table.data_file_path));
    for i in 0..300 {
        assert_eq!(s.get(&format!("key{:05}", i)).unwrap().0, b"x");
    }
}

#[test]
fn flush_all_leaves_no_memtable_and_one_table_each() {
    let mut s = Store::open_with(&small());
    for i in 0..200 {
        s.put(&format!("key{:05}", i), "boyode");
    }
    let sealed = s.engine.read_only_memtables.len();
    assert!(sealed > 0);
    let tables = s.flush_all();
    assert_eq!(tables, sealed + 1);
    assert_eq!(s.files.len(), 2 * tables);
    assert_eq!(s.engine.read_only_memtables.len(), 0);
    assert!(s.engine.active_memtable.entries().is_empty());
    assert_eq!(s.engine.active_memtable.size(), 0);
    assert_eq!(s.engine.bloom_filters.len(), tables);
    assert_eq!(s.engine.biggest_key_index.key_ranges.len(), tables);
    let held: usize = s.engine.buckets.buckets.iter().map(|b| b.sstables.len()).sum();
    assert_eq!(held, tables);
    for i in 0..200 {
        assert_eq!(s.get(&format!("key{:05}", i)).unwrap().0, b"boyode");
    }
    assert!(matches!(s.get("absent"), Err(_)));
    assert!(matches!(s.engine.flush_all_memtables(), Err(StorageEngineError::BiggestKeyIndexError)));
}

#[test]
fn key_ranges_enclose_the_keys_of_their_tables() {
    let mut s = Store::open_with(&small());
    for i in 0..200 {
        s.put(&format!("key{:05}", (i * 37) % 200), "v");
    }
    s.flush_all();
    for (path, range) in &s.engine.biggest_key_index.key_ranges {
        let entries = lsmkv::sstable::sst::SSTable::read_all(&s.files[path]);
        assert!(!entries.is_empty());
        for e in &entries {
            assert!(range.smallest_key <= e.key && e.key <= range.biggest_key);
        }
    }
}

#[test]
fn entries_point_to_their_records() {
    let mut s = Store::open_with(&small());
    for i in 0..200 {
        s.put(&format!("key{:05}", i % 50), &format!("v{}", i));
    }
    let mut tables = vec![s.engine.active_memtable.entries()];
    for (_, t) in s.engine.read_only_memtables.iter() {
        tables.push(t.entries());
    }
    let mut checked = 0;
    for entries in tables {
        for e in entries {
            if e.key.first() == Some(&0) {
                continue;
            }
            let rec = ValueLog::decode(&s.vlog, e.val_offset).unwrap().0;
            assert_eq!(rec.key, e.key);
            assert_eq!(rec.created_at, e.created_at);
            assert_eq!(rec.is_tombstone, e.is_tombstone);
            checked += 1;
        }
    }
    assert!(checked >= 50);
}

#[test]
fn crash_recovery_rebuilds_the_memtables_from_the_value_log() {
    let mut s = Store::open_with(&small());
    for i in 0..120 {
        s.put(&format!("key{:05}", i), &format!("value{}", i));
    }
    s.delete("key00007");
    let reopened = s.reopen();
    assert_eq!(reopened.engine.val_log.size, s.vlog.len());
    assert_eq!(reopened.engine.val_log.head_offset, 0);
    for i in 0..120 {
        let key = format!("key{:05}", i);
        if i == 7 {
            assert!(matches!(
                reopened.get(&key),
                Err(StorageEngineError::KeyFoundAsTombstoneInMemtableError)
            ));
        } else {
            assert_eq!(reopened.get(&key).unwrap(), s.get(&key).unwrap());
        }
    }
    assert!(reopened.engine.read_only_memtables.len() > 0);
}

#[test]
fn reopening_after_a_flush_leaves_the_answers_unchanged() {
    let mut s = Store::open_with(&small());
    for i in 0..150 {
        s.put(&format!("key{:05}", i), &format!("value{}", i));
    }
    s.flush_all();
    for i in 150..170 {
        s.put(&format!("key{:05}", i), &format!("value{}", i));
    }
    s.put("key00003", "rewritten");
    let reopened = s.reopen();
    assert_eq!(reopened.engine.bloom_filters.len(), s.engine.bloom_filters.len());
    assert_eq!(reopened.engine.buckets.buckets.len(), s.engine.buckets.buckets.len());
    assert_eq!(
        reopened.engine.biggest_key_index.key_ranges.len(),
        s.engine.biggest_key_index.key_ranges.len()
    );
    for i in 0..170 {
        let key = format!("key{:05}", i);
        assert_eq!(reopened.get(&key).unwrap().0, s.get(&key).unwrap().0);
    }
    assert_eq!(reopened.get("key00003").unwrap().0, b"rewritten");
    assert!(reopened.get("absent").is_err());
}

#[test]
fn update_then_compact_keeps_one_record_with_the_new_value() {
    let mut s = Store::open();
    s.put("a", "1");
    s.put("b", "1");
    s.put("c", "1");
    s.flush_all();
    wait_for_the_clock();
    s.put("a", "2");
    for k in ["d", "e", "f", "g"] {
        s.put(k, "2");
    }
    let (_, ts2) = s.get("a").unwrap();
    s.flush_all();
    assert_eq!(s.engine.buckets.buckets.len(), 1);
    assert_eq!(s.engine.buckets.buckets[0].sstables.len(), 2);
    let out = s.compact_at(0, ts2 + 1);
    assert_eq!(out.removed.len(), 2);
    let written = out.written.unwrap();
    assert_eq!(s.get("a").unwrap(), (b"2".to_vec(), ts2));
    let left: Vec<_> = lsmkv::sstable::sst::SSTable::read_all(&written.files.data)
        .into_iter()
        .filter(|e| e.key == b"a")
        .collect();
    assert_eq!(left.len(), 1);
    assert_eq!(left[0].created_at, ts2);
    let tables: usize = s.engine.buckets.buckets.iter().map(|b| b.sstables.len()).sum();
    assert_eq!(tables, 1);
    assert_eq!(s.engine.bloom_filters.len(), 1);
    assert_eq!(s.engine.biggest_key_index.key_ranges.len(), 1);
    assert_eq!(s.files.len(), 2);
}

#[test]
fn compaction_fails_without_change_on_bad_input() {
    let mut s = Store::open();
    s.put("a", "1");
    s.flush_all();
    assert!(matches!(
        s.engine.compact_bucket_at(5, &vec![], 0, 1),
        Err(StorageEngineError::CompactionFailed(_))
    ));
    assert!(matches!(
        s.engine.compact_bucket_at(0, &vec![], 0, 1),
        Err(StorageEngineError::CompactionFailed(_))
    ));
    let mut unsorted = Vec::new();
    for k in ["b", "a"] {
        lsmkv::sstable::sst::SSTable::write_entry(
            &mut unsorted,
            &lsmkv::memtable::inmemory::Entry::new(k.as_bytes().to_vec(), 0, 0, false),
        );
    }
    assert!(matches!(
        s.engine.run_compaction(0, &vec![unsorted]),
        Err(StorageEngineError::CompactionFailed(_))
    ));
    assert_eq!(s.engine.buckets.buckets[0].sstables.len(), 1);
    assert_eq!(s.engine.bloom_filters.len(), 1);
}

#[test]
fn buckets_fall_due_when_they_hold_enough_tables() {
    let mut s = Store::open_with(&Config { min_tier_sstables: 2, ..Config::default() });
    assert!(s.engine.buckets_to_compact().is_empty());
    s.put("a", "1");
    s.flush_all();
    assert!(s.engine.buckets_to_compact().is_empty());
    for k in ["b", "c", "d"] {
        s.put(k, "2");
    }
    s.flush_all();
    assert_eq!(s.engine.buckets_to_compact(), vec![0]);
    assert_eq!(s.engine.buckets.buckets[0].sstables.len(), 2);
}

#[test]
fn clear_starts_afresh_in_the_same_place() {
    let mut s = Store::open_with(&small());
    for i in 0..100 {
        s.put(&format!("key{:05}", i), "v");
    }
    s.flush_all();
    s.put("later", "v");
    let (fresh, bytes) = s.engine.clear().unwrap();
    assert!(s.engine.active_memtable.entries().is_empty());
    assert!(s.engine.buckets.buckets.is_empty());
    assert_eq!(s.engine.val_log.size, 0);
    assert_eq!(bytes.len(), 44);
    assert_eq!(fresh.val_log.size, 44);
    assert_eq!(fresh.dir.root, "bump");
    assert_eq!(fresh.config.sparse_interval, 4);
    assert_eq!(fresh.active_memtable.entries().len(), 2);
    assert!(fresh.bloom_filters.is_empty());
    let cleared = Store { engine: fresh, vlog: bytes, files: HashMap::new() };
    assert!(cleared.get("later").is_err());
}

#[test]
fn bucket_id_is_what_follows_the_last_bucket_in_the_path() {
    let id = |p: &str| StorageEngine::get_bucket_id_from_full_bucket_path(p);
    assert_eq!(
        id("bump/buckets/bucket550e8400-e29b-41d4-a716-446655440000/sstable_17"),
        b"550e8400-e29b-41d4-a716-446655440000".to_vec()
    );
    assert_eq!(id("buckets/bucketA/inner/bucketB/sstable"), b"B".to_vec());
    assert_eq!(id("bucket/x"), b"".to_vec());
    assert_eq!(id("a/bucketXYZ"), b"".to_vec());
    assert_eq!(id("a/bucke/t"), b"".to_vec());
    assert_eq!(id(""), b"".to_vec());
    assert_eq!(id("bucket"), b"".to_vec());
}

fn table_image(dir: &str, files: Vec<(&str, Vec<u8>)>) -> TableImage {
    TableImage {
        bucket_dir: "root/buckets/bucket550e8400-e29b-41d4-a716-446655440000".to_string(),
        dir: dir.to_string(),
        files: files
            .into_iter()
            .map(|(p, b)| FileImage { path: p.to_string(), bytes: b })
            .collect(),
    }
}

#[test]
fn a_table_directory_must_hold_two_files_and_carry_a_uuid() {
    let rate = Config::default().false_positive_rate;
    let good = "root/buckets/bucket550e8400-e29b-41d4-a716-446655440000/sstable_1";
    let one = table_image(good, vec![("d/data_1.bin", vec![])]);
    assert!(matches!(
        StorageEngine::recover_table(&one, rate),
        Err(StorageEngineError::InvalidSSTableDirectoryError { .. })
    ));
    let same = table_image(good, vec![("x", vec![]), ("x", vec![])]);
    assert!(matches!(
        StorageEngine::recover_table(&same, rate),
        Err(StorageEngineError::InvalidSSTableDirectoryError { .. })
    ));
    let nameless = table_image("root/buckets/bucketnot-a-uuid/sstable_1", vec![("a", vec![]), ("b", vec![])]);
    assert!(matches!(
        StorageEngine::recover_table(&nameless, rate),
        Err(StorageEngineError::InvaidUUIDParseString { .. })
    ));
    let ok = table_image(good, vec![("d/index_1.bin", vec![1]), ("d/data_1.bin", vec![])]);
    let found = StorageEngine::recover_table(&ok, rate).unwrap();
    assert_eq!(found.bucket_id, 0x550e8400_e29b_41d4_a716_446655440000);
    assert_eq!(found.table.data_file_path, "d/data_1.bin");
    assert_eq!(found.table.index_file_path, "d/index_1.bin");
    assert!(found.envelope.is_none());
    assert!(found.head.is_none());
    let store = StoreImage { vlog: vec![1], tables: vec![one] };
    assert!(matches!(
        StorageEngine::new("r".to_string(), &store),
        Err(StorageEngineError::InvalidSSTableDirectoryError { .. })
    ));
}

#[test]
fn error_messages_name_the_outcome() {
    assert_eq!(
        StorageEngineError::KeyFoundAsTombstoneInMemtableError.message(),
        "Key found as tombstone in memtable"
    );
    assert_eq!(
        StorageEngineError::KeyFoundAsTombstoneInSSTableError.message(),
        "Key found as tombstone in sstable"
    );
    assert_eq!(
        StorageEngineError::KeyNotFoundInAnySSTableError.message(),
        "No SS Tables contains the searched key"
    );
    assert_eq!(StorageEngineError::NotFoundInDB.message(), "Key not found ");
    assert_eq!(
        StorageEngineError::CompactionFailed("why".to_string()).message(),
        "Compaction failed reason : why"
    );
    assert_eq!(
        StorageEngineError::InsertToMemTableFailedError { key: "k".to_string(), value_offset: 120 }
            .message(),
        "Error occured while inserting entry to memtable value  Key: `k` Value: `120`"
    );
    assert_eq!(
        StorageEngineError::SSTableFileReadError {
            path: std::path::PathBuf::from("a/b"),
            error: std::io::Error::new(std::io::ErrorKind::Other, "boom"),
        }
        .message(),
        "Failed to read sstsable file `a/b`: boom"
    );
    let parse = uuid::Uuid::parse_str("zz").unwrap_err();
    assert_eq!(
        StorageEngineError::InvaidUUIDParseString { input_string: "zz".to_string(), error: parse.clone() }
            .message(),
        format!("Invalid string provided to be parsed to UUID input `zz`: {}", parse)
    );
}

#[test]
fn reads_end_as_the_value_log_says() {
    assert_eq!(resolve_value(Some((b"v".to_vec(), false)), 9).unwrap(), (b"v".to_vec(), 9));
    assert!(matches!(
        resolve_value(Some((b"v".to_vec(), true)), 9),
        Err(StorageEngineError::KeyFoundAsTombstoneInValueLogError)
    ));
    assert!(matches!(resolve_value(None, 9), Err(StorageEngineError::KeyNotFoundInValueLogError)));
}

#[test]
fn the_newest_table_hit_settles_a_read() {
    assert!(matches!(resolve_table_hits(&vec![]), ReadStep::Failed(StorageEngineError::NotFoundInDB)));
    assert!(matches!(resolve_table_hits(&vec![None, None]), ReadStep::Failed(StorageEngineError::NotFoundInDB)));
    assert!(matches!(
        resolve_table_hits(&vec![Some((1, 10, false)), None, Some((2, 30, false)), Some((3, 20, true))]),
        ReadStep::ReadValue { offset: 2, created_at: 30 }
    ));
    assert!(matches!(
        resolve_table_hits(&vec![Some((1, 10, false)), Some((2, 30, true))]),
        ReadStep::Failed(StorageEngineError::KeyFoundAsTombstoneInSSTableError)
    ));
    assert!(matches!(
        resolve_table_hits(&vec![Some((1, 30, false)), Some((2, 30, true))]),
        ReadStep::ReadValue { offset: 1, created_at: 30 }
    ));
}

#[test]
fn lookup_outcomes_collapse_to_not_found() {
    assert!(matches!(
        StorageEngineError::KeyFoundAsTombstoneInMemtableError.collapse(),
        StorageEngineError::NotFoundInDB
    ));
    assert!(matches!(
        StorageEngineError::KeyNotFoundByAnyBloomFilterError.collapse(),
        StorageEngineError::NotFoundInDB
    ));
    assert!(matches!(StorageEngineError::NotFoundInDB.collapse(), StorageEngineError::NotFoundInDB));
    assert!(matches!(
        StorageEngineError::BiggestKeyIndexError.collapse(),
        StorageEngineError::BiggestKeyIndexError
    ));
    assert!(matches!(
        StorageEngineError::CompactionFailed("x".to_string()).collapse(),
        StorageEngineError::CompactionFailed(_)
    ));
}

#[test]
fn the_tail_moves_up_to_the_oldest_live_record() {
    let mut s = Store::open();
    let a = s.put("a", "1").offset;
    let b = s.put("b", "1").offset;
    assert_eq!(s.engine.reclaim_at(&vec![], 500).unwrap(), a);
    assert_eq!(s.engine.val_log.tail_offset, a);
    assert_eq!(s.engine.lookup_memtables(&tail_key()), Some((a, 500, false)));
    let a2 = s.put("a", "2").offset;
    assert_eq!(s.engine.reclaim_at(&vec![], 501).unwrap(), b);
    s.flush_all();
    let data: Vec<Vec<u8>> = s
        .engine
        .buckets
        .buckets
        .iter()
        .flat_map(|bucket| bucket.sstables.iter())
        .map(|t| s.files[&t.data_file_path].clone())
        .collect();
    assert_eq!(s.engine.reclaim_at(&data, 502).unwrap(), b);
    let c = s.put("b", "3").offset;
    assert!(c > a2);
    assert_eq!(s.engine.reclaim_at(&vec![], 503).unwrap(), c);
    assert_eq!(s.engine.reclaim_at(&data, 504).unwrap(), c);
    assert_eq!(s.engine.val_log.tail_offset, c);
    assert!(s.engine.reclaim(&data).unwrap() >= c);
}

#[test]
fn many_writes_of_random_keys_all_succeed_and_read_back() {
    let mut s = Store::open_with(&small());
    let mut written: HashMap<String, String> = HashMap::new();
    let mut rng = rand::thread_rng();
    for i in 0..20_000 {
        let key: String = (&mut rng).sample_iter(&Alphanumeric).take(2).map(char::from).collect();
        let value = format!("x{}", i % 7);
        let out = s.put(&key, &value);
        written.insert(key, value);
        if let Some(id) = out.flush {
            let flushed = s.engine.flush_read_only(&id, 1).unwrap().unwrap();
            s.files.insert(flushed.table.data_file_path.clone(), flushed.files.data);
            s.files.insert(flushed.table.index_file_path.clone(), flushed.files.index);
        }
    }
    assert!(s.engine.read_only_memtables.len() <= 3);
    assert!(s.engine.bloom_filters.len() > 100);
    for (key, value) in &written {
        assert_eq!(s.get(key).unwrap().0, value.as_bytes());
    }
}

#[test]
fn creation_times_ascend_strictly_whatever_the_clock_does() {
    let mut s = Store::open();
    let mut last = s.engine.last_write_stamp;
    for i in 0..200 {
        let out = s.put("k", &format!("{}", i));
        let rec = ValueLog::decode(&s.vlog, out.offset).unwrap().0;
        assert!(rec.created_at > last);
        last = rec.created_at;
        assert_eq!(s.engine.last_write_stamp, last);
    }
    s.engine.last_write_stamp = u64::MAX - 1;
    let out = s.put("k", "late");
    assert_eq!(ValueLog::decode(&s.vlog, out.offset).unwrap().0.created_at, u64::MAX);
    let reopened = s.reopen();
    assert_eq!(reopened.engine.last_write_stamp, u64::MAX);
}

#[test]
fn a_write_that_does_not_fit_changes_nothing() {
    let mut s = Store::open();
    s.engine.val_log.size = usize::MAX - 10;
    assert!(matches!(s.engine.put("k", "v"), Err(StorageEngineError::VLogFileWriteError(_))));
    assert_eq!(s.engine.val_log.size, usize::MAX - 10);
    assert!(s.engine.lookup_memtables(&b"k".to_vec()).is_none());

    let mut t = Store::open();
    t.engine.active_memtable.size = usize::MAX - 5;
    assert!(matches!(
        t.engine.put("k", "v"),
        Err(StorageEngineError::InsertToMemTableFailedError { value_offset: 44, .. })
    ));
    assert_eq!(t.engine.val_log.size, 44);
    assert!(t.engine.lookup_memtables(&b"k".to_vec()).is_none());
    assert!(matches!(
        t.engine.reclaim_at(&vec![], 1),
        Err(StorageEngineError::InsertToMemTableFailedError { .. })
    ));
}

#[test]
fn a_table_in_range_without_a_filter_is_not_searched() {
    let mut s = Store::open();
    s.put("k", "v");
    s.flush_all();
    s.engine.bloom_filters.clear();
    assert!(matches!(s.get("k"), Err(StorageEngineError::KeyNotFoundByAnyBloomFilterError)));
    assert!(matches!(s.get("zzz"), Err(StorageEngineError::KeyNotFoundInAnySSTableError)));
}

#[test]
fn an_empty_memtable_cannot_be_rolled_over() {
    let mut s = Store::open();
    s.engine.active_memtable.clear();
    s.engine.active_memtable.capacity = 1;
    assert!(matches!(s.engine.put("k", "v"), Err(StorageEngineError::BiggestKeyIndexError)));
    assert_eq!(s.engine.val_log.size, 44);
}

#[test]
fn a_sealed_memtable_is_flushed_under_the_time_and_bucket_it_is_given() {
    let mut s = Store::open_with(&small());
    for i in 0..100 {
        s.put(&format!("key{:05}", i), "x");
    }
    let sealed_before = s.engine.read_only_memtables.len();
    assert!(sealed_before >= 2);
    let (oldest, table) = s.engine.read_only_memtables.get_index(0).unwrap();
    let (oldest, entries) = (oldest.clone(), table.entries().len());
    let second = s.engine.read_only_memtables.get_index(1).unwrap().0.clone();

    let flushed = s.engine.flush_read_only_at(&oldest, 3, 9000, 77).unwrap().unwrap();
    assert_eq!(s.engine.read_only_memtables.len(), sealed_before - 1);
    assert_eq!(s.engine.read_only_memtables.get_index(0).unwrap().0, &second);
    assert_eq!(s.engine.buckets.buckets.len(), 1);
    assert_eq!(s.engine.buckets.buckets[0].id, 77);
    assert_eq!(flushed.table.hotness, 3);
    assert_eq!(flushed.table.dir, format!("{}/sstable_9000", s.engine.buckets.buckets[0].dir));
    assert_eq!(lsmkv::sstable::sst::SSTable::read_all(&flushed.files.data).len(), entries);
    assert_eq!(s.engine.last_table_stamp, 9000);
    assert_eq!(s.engine.bloom_filters.len(), 1);
    assert!(s.engine.biggest_key_index.contains_path(&flushed.table.data_file_path));

    assert!(s.engine.flush_read_only_at(&oldest, 3, 9001, 78).unwrap().is_none());
    assert!(s.engine.flush_read_only(&oldest, 3).unwrap().is_none());
    assert_eq!(s.engine.read_only_memtables.len(), sealed_before - 1);

    let again = s.engine.flush_read_only_at(&second, 3, 9000, 77);
    assert!(matches!(again, Err(StorageEngineError::FailedToInsertToBucket(_))));
    assert_eq!(s.engine.read_only_memtables.len(), sealed_before - 1);
    assert_eq!(s.engine.bloom_filters.len(), 1);
}

#[test]
fn flushing_all_fails_without_change_when_the_active_memtable_is_empty() {
    let mut s = Store::open_with(&small());
    for i in 0..100 {
        s.put(&format!("key{:05}", i), "x");
    }
    s.engine.active_memtable.clear();
    let sealed = s.engine.read_only_memtables.len();
    assert!(sealed > 0);
    assert!(matches!(s.engine.flush_all_memtables(), Err(StorageEngineError::BiggestKeyIndexError)));
    assert_eq!(s.engine.read_only_memtables.len(), sealed);
    assert!(s.engine.bloom_filters.is_empty());
    assert!(s.engine.buckets.buckets.is_empty());
    assert!(s.engine.biggest_key_index.key_ranges.is_empty());
}

#[test]
fn flushing_all_a_fresh_store_succeeds() {
    let mut s = Store::open();
    assert_eq!(s.flush_all(), 1);
    assert_eq!(s.engine.bloom_filters.len(), 1);
    assert_eq!(s.engine.buckets.buckets.len(), 1);
}

#[test]
fn a_flush_keeps_every_bucket_and_every_table_that_was_there() {
    let mut s = Store::open_with(&small());
    for i in 0..3 {
        s.put(&format!("key{:05}", i), "x");
    }
    let first = s.engine.flush_memtable_at(None, 1, 100, 7).unwrap();
    assert_eq!(s.engine.buckets.buckets.len(), 1);
    assert_eq!(s.engine.buckets.buckets[0].id, 7);
    assert_eq!(s.engine.buckets.buckets[0].sstables.len(), 1);
    assert_eq!(s.engine.buckets.buckets[0].avarage_size, first.table.size);
    // A table of the same size joins the bucket that is there.
    let second = s.engine.flush_memtable_at(None, 1, 101, 8).unwrap();
    assert_eq!(s.engine.buckets.buckets.len(), 1);
    assert_eq!(s.engine.buckets.buckets[0].id, 7);
    let paths: Vec<&String> =
        s.engine.buckets.buckets[0].sstables.iter().map(|t| &t.data_file_path).collect();
    assert_eq!(paths, vec![&first.table.data_file_path, &second.table.data_file_path]);
    // A much larger table finds no window and opens a bucket of its own.
    for i in 3..30 {
        s.put(&format!("key{:05}", i), "x");
    }
    let third = s.engine.flush_memtable_at(None, 1, 102, 9).unwrap();
    assert!(third.table.size > 2 * first.table.size);
    assert_eq!(s.engine.buckets.buckets.len(), 2);
    assert_eq!(s.engine.buckets.buckets[0].id, 7);
    assert_eq!(s.engine.buckets.buckets[0].sstables.len(), 2);
    assert_eq!(s.engine.buckets.buckets[1].id, 9);
    assert_eq!(s.engine.buckets.buckets[1].sstables.len(), 1);
    assert_eq!(s.engine.buckets.buckets[1].sstables[0].data_file_path, third.table.data_file_path);
    // Every earlier envelope and filter is still registered.
    for f in [&first, &second, &third] {
        assert!(s.engine.biggest_key_index.contains_path(&f.table.data_file_path));
        assert!(s
            .engine
            .bloom_filters
            .iter()
            .any(|b| b.sstable_path.as_ref().unwrap().data_file_path == f.table.data_file_path));
    }
}

#[test]
fn flushing_all_registers_an_envelope_and_a_filter_for_every_table() {
    let mut s = Store::open_with(&small());
    for i in 0..100 {
        s.put(&format!("key{:05}", i), "x");
    }
    s.delete("key00003");
    let sealed = s.engine.read_only_memtables.len();
    let flushed = s.engine.flush_all_memtables().unwrap();
    assert_eq!(flushed.len(), sealed + 1);
    assert_eq!(s.engine.bloom_filters.len(), flushed.len());
    for f in &flushed {
        let range = s
            .engine
            .biggest_key_index
            .key_ranges
            .iter()
            .find(|(p, _)| p == &f.table.data_file_path)
            .map(|(_, r)| r)
            .unwrap();
        let entries = lsmkv::sstable::sst::SSTable::read_all(&f.files.data);
        assert_eq!(range.smallest_key, entries.first().unwrap().key);
        assert_eq!(range.biggest_key, entries.last().unwrap().key);
        let filter = s
            .engine
            .bloom_filters
            .iter()
            .find(|b| b.sstable_path.as_ref().unwrap().data_file_path == f.table.data_file_path)
            .unwrap();
        for e in &entries {
            assert!(filter.contains(&e.key));
        }
    }
    let tables: usize = s.engine.buckets.buckets.iter().map(|b| b.sstables.len()).sum();
    assert_eq!(tables, flushed.len());
}

#[test]
fn compaction_fails_without_change_where_the_new_table_would_take_a_path_that_is_taken() {
    let mut s = Store::open();
    s.put("a", "1");
    s.put("b", "1");
    let flushed = s.engine.flush_memtable_at(None, 1, 500, 7).unwrap();
    s.files.insert(flushed.table.data_file_path.clone(), flushed.files.data.clone());
    s.files.insert(flushed.table.index_file_path.clone(), flushed.files.index.clone());
    let data = vec![flushed.files.data.clone()];
    // Made at the time of the table it merges, the new table would stand in
    // the same bucket under the same path.
    assert!(matches!(
        s.engine.compact_bucket_at(0, &data, 500, 8),
        Err(StorageEngineError::CompactionFailed(_))
    ));
    assert_eq!(s.engine.buckets.buckets[0].sstables.len(), 1);
    assert_eq!(s.engine.bloom_filters.len(), 1);
    assert!(s.engine.biggest_key_index.contains_path(&flushed.table.data_file_path));
    // A moment later it goes through.
    let out = s.engine.compact_bucket_at(0, &data, 501, 8).unwrap();
    assert_eq!(out.removed.len(), 1);
    assert_eq!(out.removed[0].data_file_path, flushed.table.data_file_path);
    let written = out.written.unwrap();
    assert_eq!(written.files.data, flushed.files.data);
    assert!(!s.engine.biggest_key_index.contains_path(&flushed.table.data_file_path));
    assert!(s.engine.biggest_key_index.contains_path(&written.table.data_file_path));
    assert_eq!(s.engine.bloom_filters.len(), 1);
}

#[test]
fn compaction_fails_without_change_where_a_new_bucket_is_due_and_its_identifier_is_taken() {
    let mut s = Store::open();
    s.put("kept", "1");
    for i in 0..30 {
        s.delete(&format!("gone{:03}", i));
    }
    let flushed = s.engine.flush_memtable_at(None, 1, 500, 7).unwrap();
    let data = vec![flushed.files.data.clone()];
    let late = u64::MAX;
    // Long after the grace period only a few entries stand: the new table is
    // too small for the bucket that is there.
    assert!(matches!(
        s.engine.compact_bucket_at(0, &data, late, 7),
        Err(StorageEngineError::CompactionFailed(_))
    ));
    assert_eq!(s.engine.buckets.buckets.len(), 1);
    assert_eq!(s.engine.buckets.buckets[0].sstables.len(), 1);
    let out = s.engine.compact_bucket_at(0, &data, late, 8).unwrap();
    let written = out.written.unwrap();
    assert!(written.table.size * 2 < flushed.table.size);
    assert_eq!(s.engine.buckets.buckets.len(), 2);
    assert_eq!(s.engine.buckets.buckets[0].sstables.len(), 0);
    assert_eq!(s.engine.buckets.buckets[1].id, 8);
    assert_eq!(s.engine.buckets.buckets[1].sstables.len(), 1);
}

#[test]
fn a_read_goes_through_the_tiers_from_the_newest_to_the_oldest() {
    let mut s = Store::open_with(&small());
    let first = s.put("again", "old");
    let mut n = 0;
    while s.engine.read_only_memtables.len() < 1 {
        s.put(&format!("fill{:05}", n), "x");
        n += 1;
    }
    let second = s.put("again", "newer");
    while s.engine.read_only_memtables.len() < 2 {
        s.put(&format!("fill{:05}", n), "x");
        n += 1;
    }
    // Both sealed memtables hold the key; the one sealed last settles it.
    match s.engine.get("again") {
        ReadStep::ReadValue { offset, .. } => assert_eq!(offset, second.offset),
        other => panic!("{:?}", other),
    }
    let third = s.put("again", "newest");
    match s.engine.get("again") {
        ReadStep::ReadValue { offset, .. } => assert_eq!(offset, third.offset),
        other => panic!("{:?}", other),
    }
    assert!(first.offset < second.offset && second.offset < third.offset);
    assert_eq!(s.get("again").unwrap().0, b"newest");
}

#[test]
fn a_planned_write_changes_nothing_until_it_is_committed() {
    let mut s = Store::open();
    let before = s.engine.val_log.size;
    let planned = s.engine.plan_put("apple", "red").unwrap();
    assert_eq!(planned.offset, before);
    assert_eq!(planned.key, b"apple");
    assert_eq!(planned.value, b"red");
    assert!(!planned.is_tombstone);
    assert!(planned.created_at > s.engine.last_write_stamp);
    assert_eq!(
        planned.record,
        ValueLog::encode(b"apple", b"red", planned.created_at, false)
    );
    assert_eq!(s.engine.val_log.size, before);
    assert!(matches!(s.engine.get("apple"), ReadStep::Failed(_)));
    let (record, at) = (planned.record.clone(), planned.created_at);
    let out = s.engine.commit(planned).unwrap();
    assert_eq!(out.offset, before);
    assert_eq!(out.record, record);
    s.log(&out);
    assert_eq!(s.get("apple").unwrap(), (b"red".to_vec(), at));
    assert_eq!(s.engine.last_write_stamp, at);
}

#[test]
fn a_planned_delete_records_a_tombstone() {
    let mut s = Store::open();
    s.put("apple", "red");
    let planned = s.engine.plan_delete("apple").unwrap();
    assert!(planned.is_tombstone);
    assert_eq!(planned.value, 0u32.to_le_bytes().to_vec());
    assert_eq!(s.get("apple").unwrap().0, b"red");
    let out = s.engine.commit(planned).unwrap();
    s.log(&out);
    assert!(matches!(
        s.get("apple"),
        Err(StorageEngineError::KeyFoundAsTombstoneInMemtableError)
    ));
}

#[test]
fn a_write_that_would_fail_is_refused_when_it_is_planned() {
    let s = Store::open();
    let reserved = String::from_utf8(head_key()).unwrap();
    assert!(matches!(
        s.engine.plan_put(&reserved, "x"),
        Err(StorageEngineError::ReservedKeyError)
    ));
    assert!(matches!(
        s.engine.check_write(&tail_key(), b"x", &b"id".to_vec()),
        Err(StorageEngineError::ReservedKeyError)
    ));
    assert!(s.engine.check_write(b"apple", b"x", &b"id".to_vec()).is_ok());
    assert_eq!(s.engine.val_log.size, s.vlog.len());
}

#[test]
fn a_write_is_checked_against_the_identifiers_that_are_taken() {
    let mut s = Store::open_with(&small());
    let mut n = 0;
    while s.engine.read_only_memtables.len() < 1 {
        s.put(&format!("fill{:05}", n), "x");
        n += 1;
    }
    let taken = s.engine.read_only_memtables.get_index(0).unwrap().0.clone();
    // While the active memtable has room no identifier is called for.
    assert!(s.engine.check_write(b"apple", b"x", &taken).is_ok());
    loop {
        let out = s.put(&format!("fill{:05}", n), "x");
        n += 1;
        if out.rolled_over {
            break;
        }
    }
    let mut last = None;
    for _ in 0..200 {
        if s.engine.check_write(b"apple", b"x", &taken).is_err() {
            last = Some(s.engine.check_write(b"apple", b"x", &taken));
            break;
        }
        s.put(&format!("fill{:05}", n), "x");
        n += 1;
    }
    assert!(matches!(
        last,
        Some(Err(StorageEngineError::InsertToMemTableFailedError { .. }))
    ));
    assert!(s.engine.check_write(b"apple", b"x", &b"free".to_vec()).is_ok());
}

#[test]
fn a_compaction_pass_goes_from_the_last_bucket_that_is_due_to_the_first() {
    let mut s = Store::open_with(&Config { min_tier_sstables: 2, ..small() });
    for i in 0..3 {
        s.put(&format!("key{:05}", i), "x");
    }
    s.engine.flush_memtable_at(None, 1, 100, 7).unwrap();
    s.engine.flush_memtable_at(None, 1, 101, 7).unwrap();
    for i in 3..40 {
        s.put(&format!("key{:05}", i), "x");
    }
    s.engine.flush_memtable_at(None, 1, 102, 8).unwrap();
    s.engine.flush_memtable_at(None, 1, 103, 8).unwrap();
    assert_eq!(s.engine.buckets.buckets.len(), 2);
    let mut pass = s.engine.plan_compaction_pass();
    assert_eq!(pass.due, vec![0, 1]);
    assert!(!pass.compacted && !pass.reclaimed);
    assert!(matches!(pass.advance(), PassStep::Compact(1)));
    assert!(matches!(pass.advance(), PassStep::Compact(0)));
    pass.note_compacted();
    assert!(matches!(pass.advance(), PassStep::Reclaim));
    assert!(pass.reclaimed);
    assert!(matches!(pass.advance(), PassStep::Done));
    assert!(matches!(pass.advance(), PassStep::Done));
    // A pass that compacted nothing does not reclaim.
    let mut idle = Store::open().engine.plan_compaction_pass();
    assert!(idle.due.is_empty());
    assert!(matches!(idle.advance(), PassStep::Done));
    assert!(!idle.reclaimed);
}
