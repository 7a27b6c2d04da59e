use lsmkv::memtable::inmemory::Entry;
use lsmkv::sparse_index::SparseIndex;
use lsmkv::sstable::sst::SSTable;
use lsmkv::sstable::table::Table;
use lsmkv::storage_engine::storage::search_table;

fn entry(key: &[u8], offset: usize, at: u64, tombstone: bool) -> Entry<Vec<u8>, usize> {
    Entry::new(key.to_vec(), offset, at, tombstone)
}

fn sorted_entries(n: usize) -> Vec<Entry<Vec<u8>, usize>> {
    (0..n).map(|i| entry(format!("key{:04}", i).as_bytes(), i * 10, 1000 + i as u64, i % 7 == 0)).collect()
}

#[test]
fn data_entry_layout_is_length_key_offset_time_flag() {
    let mut data = Vec::new();
    SSTable::write_entry(&mut data, &entry(b"ab", 0x0102, 0x0a0b, true));
    assert_eq!(
        data,
        vec![
            2, 0, 0, 0, // key length
            b'a', b'b', // key
            2, 1, 0, 0, 0, 0, 0, 0, // value offset
            0x0b, 0x0a, 0, 0, 0, 0, 0, 0, // creation time
            1, // tombstone
        ]
    );
}

#[test]
fn index_mark_layout_is_length_key_offset() {
    let mut index = Vec::new();
    SparseIndex::write_mark(&mut index, b"abc", 0x0203);
    assert_eq!(index, vec![3, 0, 0, 0, b'a', b'b', b'c', 3, 2, 0, 0, 0, 0, 0, 0]);
}

#[test]
fn encode_marks_the_first_and_every_nth_entry() {
    let entries = sorted_entries(7);
    let files = SSTable::encode(&entries, 3).unwrap();
    assert_eq!(files.data.len(), 7 * (21 + 7));
    let marks = SparseIndex::from_bytes(&files.index);
    assert_eq!(marks.entries.len(), 3);
    assert_eq!(marks.entries[0].key, b"key0000");
    assert_eq!(marks.entries[0].offset, 0);
    assert_eq!(marks.entries[1].key, b"key0003");
    assert_eq!(marks.entries[1].offset, 3 * 28);
    assert_eq!(marks.entries[2].key, b"key0006");
    assert_eq!(marks.entries[2].offset, 6 * 28);
    assert!(marks.is_sorted());
}

#[test]
fn encode_of_nothing_is_two_empty_files() {
    let files = SSTable::encode(&Vec::new(), 4).unwrap();
    assert!(files.data.is_empty());
    assert!(files.index.is_empty());
    assert!(SSTable::read_all(&files.data).is_empty());
    assert!(SparseIndex::from_bytes(&files.index).entries.is_empty());
}

#[test]
fn read_all_reads_back_what_encode_wrote() {
    let entries = sorted_entries(50);
    let files = SSTable::encode(&entries, 8).unwrap();
    let back = SSTable::read_all(&files.data);
    assert_eq!(back.len(), 50);
    for (a, b) in back.iter().zip(entries.iter()) {
        assert_eq!(a.key, b.key);
        assert_eq!(a.val_offset, b.val_offset);
        assert_eq!(a.created_at, b.created_at);
        assert_eq!(a.is_tombstone, b.is_tombstone);
    }
}

#[test]
fn read_all_stops_at_a_torn_entry() {
    let entries = sorted_entries(3);
    let files = SSTable::encode(&entries, 1).unwrap();
    let back = SSTable::read_all(&files.data[..files.data.len() - 1]);
    assert_eq!(back.len(), 2);
    assert!(SSTable::read_entry(&files.data, files.data.len()).is_none());
    assert!(SSTable::read_entry(&files.data, 1).is_none());
}

#[test]
fn scan_finds_keys_at_and_behind_the_block() {
    let entries = sorted_entries(10);
    let files = SSTable::encode(&entries, 4).unwrap();
    assert_eq!(SSTable::get(&files.data, 0, b"key0000"), Some((0, 1000, true)));
    assert_eq!(SSTable::get(&files.data, 0, b"key0009"), Some((90, 1009, false)));
    assert_eq!(SSTable::get(&files.data, 4 * 28, b"key0005"), Some((50, 1005, false)));
    assert_eq!(SSTable::get(&files.data, 4 * 28, b"key0003"), None);
    assert_eq!(SSTable::get(&files.data, 0, b"key00035"), None);
    assert_eq!(SSTable::get(&files.data, 0, b"zzz"), None);
    assert_eq!(SSTable::get(&files.data, files.data.len(), b"key0000"), None);
}

#[test]
fn sparse_index_gives_the_greatest_marked_key_not_above_the_probe() {
    let entries = sorted_entries(10);
    let files = SSTable::encode(&entries, 4).unwrap();
    let index = SparseIndex::from_bytes(&files.index);
    assert_eq!(index.get(b"key0000"), Some(0));
    assert_eq!(index.get(b"key0003"), Some(0));
    assert_eq!(index.get(b"key0004"), Some(4 * 28));
    assert_eq!(index.get(b"key0007"), Some(4 * 28));
    assert_eq!(index.get(b"key0008"), Some(8 * 28));
    assert_eq!(index.get(b"zzzz"), Some(8 * 28));
    assert_eq!(index.get(b"a"), None);
    assert_eq!(index.get(b""), None);
    assert_eq!(SparseIndex::from_bytes(&[]).get(b"a"), None);
}

#[test]
fn every_key_of_a_table_is_found_through_its_index() {
    for interval in [1usize, 2, 3, 16, 128] {
        let entries = sorted_entries(200);
        let files = SSTable::encode(&entries, interval).unwrap();
        for e in &entries {
            assert_eq!(
                search_table(&files.index, &files.data, &e.key),
                Some((e.val_offset, e.created_at, e.is_tombstone))
            );
        }
        assert_eq!(search_table(&files.index, &files.data, b"key0000a"), None);
        assert_eq!(search_table(&files.index, &files.data, b"a"), None);
        assert_eq!(search_table(&files.index, &files.data, b"key9999"), None);
    }
}

#[test]
fn a_table_with_a_damaged_index_is_scanned_from_its_start() {
    let entries = sorted_entries(5);
    let files = SSTable::encode(&entries, 1).unwrap();
    let mut index = Vec::new();
    SparseIndex::write_mark(&mut index, b"key0004", 4 * 28);
    SparseIndex::write_mark(&mut index, b"key0000", 0);
    assert!(!SparseIndex::from_bytes(&index).is_sorted());
    assert_eq!(search_table(&index, &files.data, b"key0002"), Some((20, 1002, false)));
}

#[test]
fn first_entry_for_a_key_is_handed_out() {
    let entries = vec![entry(b"a", 1, 1, false), entry(b"b", 2, 2, true), entry(b"a", 3, 3, false)];
    assert_eq!(SSTable::get_value_from_index(&entries, b"a"), Some((1, 1, false)));
    assert_eq!(SSTable::get_value_from_index(&entries, b"b"), Some((2, 2, true)));
    assert_eq!(SSTable::get_value_from_index(&entries, b"c"), None);
}

#[test]
fn table_handle_counts_reads() {
    let mut t = Table::new("d".to_string(), "d/data".to_string(), "d/index".to_string());
    assert_eq!(t.get_hotness(), 0);
    assert_eq!(t.size, 0);
    t.increase_hotness();
    t.increase_hotness();
    assert_eq!(t.get_hotness(), 2);
    t.hotness = u64::MAX;
    t.increase_hotness();
    assert_eq!(t.get_hotness(), u64::MAX);
    assert_eq!(t.get_data_file_path(), "d/data");
    let other = Table::new("e".to_string(), "d/data".to_string(), "e/index".to_string());
    assert!(t.same_table(&other));
    assert!(!t.same_table(&Table::new("d".to_string(), "x".to_string(), "d/index".to_string())));
}
