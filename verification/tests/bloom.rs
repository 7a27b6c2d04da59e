use lsmkv::bloom_filter::{
    hash_key, sort_by_hotness, BloomFilter, FilterRate, DEFAULT_MILLIBITS_PER_ENTRY,
    DEFAULT_NO_OF_HASH_FUNC, HASH_MULTIPLIER_A, HASH_SEED_A,
};
use lsmkv::sstable::table::Table;

fn rate() -> FilterRate {
    FilterRate { millibits_per_entry: 10_000, no_of_hash_func: 7 }
}

#[test]
fn default_rate_is_one_in_ten_thousand() {
    let r = FilterRate::default();
    assert_eq!(r.millibits_per_entry, DEFAULT_MILLIBITS_PER_ENTRY);
    assert_eq!(r.no_of_hash_func, DEFAULT_NO_OF_HASH_FUNC);
    assert_eq!(r.millibits_per_entry, 19171);
    assert_eq!(r.no_of_hash_func, 13);
}

#[test]
fn filter_size_is_entries_times_bits_rounded_up() {
    assert_eq!(BloomFilter::new(rate(), 10).bit_vec.len(), 100);
    assert_eq!(BloomFilter::new(FilterRate { millibits_per_entry: 19171, no_of_hash_func: 13 }, 10).bit_vec.len(), 192);
    assert_eq!(BloomFilter::new(FilterRate { millibits_per_entry: 1, no_of_hash_func: 1 }, 1).bit_vec.len(), 1);
    assert_eq!(BloomFilter::new(FilterRate { millibits_per_entry: 1001, no_of_hash_func: 1 }, 1).bit_vec.len(), 2);
}

#[test]
fn filter_for_no_entries_has_one_bit() {
    let f = BloomFilter::new(rate(), 0);
    assert_eq!(f.bit_vec.len(), 1);
    assert!(!f.bit_vec[0]);
    assert_eq!(f.no_of_hash_func, 7);
    assert!(f.sstable_path.is_none());
}

#[test]
fn hash_of_the_empty_key_is_the_seed() {
    assert_eq!(hash_key(b"", HASH_SEED_A, HASH_MULTIPLIER_A), HASH_SEED_A);
}

#[test]
fn hash_step_adds_then_multiplies() {
    assert_eq!(hash_key(&[2], 3, 7), 35);
    assert_eq!(hash_key(&[2, 1], 3, 7), 252);
    assert_eq!(hash_key(&[1], u64::MAX, 2), 0);
    assert_eq!(hash_key(&[2], u64::MAX, 3), 3);
}

#[test]
fn new_filter_contains_nothing() {
    let f = BloomFilter::new(rate(), 100);
    assert!(!f.contains(&b"a".to_vec()));
    assert!(!f.contains(&vec![]));
}

#[test]
fn added_keys_are_never_reported_absent() {
    let mut f = BloomFilter::new(rate(), 200);
    let keys: Vec<Vec<u8>> = (0u32..200).map(|i| i.to_le_bytes().to_vec()).collect();
    for k in &keys {
        f.set(k);
    }
    for k in &keys {
        assert!(f.contains(k));
    }
    assert_eq!(f.no_of_elements, 200);
}

#[test]
fn most_absent_keys_are_reported_absent() {
    let mut f = BloomFilter::new(FilterRate::default(), 100);
    for i in 0u32..100 {
        f.set(&i.to_le_bytes().to_vec());
    }
    let false_positives = (1000u32..2000).filter(|i| f.contains(&i.to_le_bytes().to_vec())).count();
    assert!(false_positives < 50);
}

#[test]
fn set_changes_only_the_probed_bits() {
    let mut f = BloomFilter::new(rate(), 10);
    f.set(&b"k".to_vec());
    let ones = f.bit_vec.iter().filter(|b| **b).count();
    assert!(ones >= 1 && ones <= 7);
}

fn tied(name: &str, hotness: u64) -> BloomFilter {
    let mut f = BloomFilter::new(rate(), 1);
    let mut t = Table::new(name.to_string(), format!("{}/data", name), format!("{}/index", name));
    t.hotness = hotness;
    f.set_sstable_path(t);
    f
}

#[test]
fn sort_puts_the_hottest_first() {
    let mut filters = vec![tied("a", 1), tied("b", 5), tied("c", 3), tied("d", 5)];
    sort_by_hotness(&mut filters);
    let heat: Vec<u64> = filters.iter().map(|f| f.hotness()).collect();
    assert_eq!(heat, vec![5, 5, 3, 1]);
    let mut names: Vec<String> =
        filters.iter().map(|f| f.get_sstable_path().as_ref().unwrap().dir.clone()).collect();
    names.sort();
    assert_eq!(names, vec!["a", "b", "c", "d"]);
}

#[test]
fn filters_are_picked_by_table_and_by_key() {
    let mut a = tied("a", 0);
    let mut b = tied("b", 0);
    let c = tied("c", 0);
    a.set(&b"x".to_vec());
    b.set(&b"y".to_vec());
    let filters = vec![a, b, c];
    let tables = vec![
        filters[0].get_sstable_path().clone().unwrap(),
        filters[1].get_sstable_path().clone().unwrap(),
    ];
    let picked = BloomFilter::bloom_filters_within_key_range(&filters, &tables);
    assert_eq!(picked.len(), 2);
    let found = BloomFilter::sstables_within_key_range(&picked, &b"x".to_vec()).unwrap();
    assert_eq!(found.len(), 1);
    assert_eq!(found[0].dir, "a");
    assert!(BloomFilter::sstables_within_key_range(&picked, &b"zzz".to_vec()).is_none());
    assert!(filters[2].is_tied_to_one_of(&vec![filters[2].get_sstable_path().clone().unwrap()]));
    assert!(!filters[2].is_tied_to_one_of(&tables));
}

#[test]
fn clone_keeps_the_bits() {
    let mut f = BloomFilter::new(rate(), 10);
    f.set(&b"k".to_vec());
    let g = f.clone();
    assert_eq!(g.bit_vec, f.bit_vec);
    assert_eq!(g.no_of_hash_func, f.no_of_hash_func);
    assert!(g.contains(&b"k".to_vec()));
}

#[test]
fn filter_file_is_bits_probes_and_packed_bits() {
    let mut f = BloomFilter::new(FilterRate { millibits_per_entry: 1000, no_of_hash_func: 3 }, 10);
    assert_eq!(f.bit_vec.len(), 10);
    for i in [0usize, 3, 8, 9] {
        f.bit_vec[i] = true;
    }
    assert_eq!(
        f.to_bytes(),
        vec![10, 0, 0, 0, 0, 0, 0, 0, 3, 0, 0, 0, 0b0000_1001, 0b0000_0011]
    );
}

#[test]
fn filter_file_round_trips() {
    let mut f = BloomFilter::new(FilterRate::default(), 100);
    for i in 0u32..100 {
        f.set(&i.to_le_bytes().to_vec());
    }
    let bytes = f.to_bytes();
    assert_eq!(bytes.len(), 12 + (f.bit_vec.len() + 7) / 8);
    let g = BloomFilter::from_bytes(&bytes).unwrap();
    assert_eq!(g.bit_vec, f.bit_vec);
    assert_eq!(g.no_of_hash_func, f.no_of_hash_func);
    assert!(g.sstable_path.is_none());
    for i in 0u32..100 {
        assert!(g.contains(&i.to_le_bytes().to_vec()));
    }
}

#[test]
fn filter_file_must_have_the_length_its_header_calls_for() {
    let f = BloomFilter::new(rate(), 2);
    let bytes = f.to_bytes();
    assert!(BloomFilter::from_bytes(&bytes).is_some());
    assert!(BloomFilter::from_bytes(&bytes[..bytes.len() - 1]).is_none());
    assert!(BloomFilter::from_bytes(&bytes[..11]).is_none());
    assert!(BloomFilter::from_bytes(&[]).is_none());
    let mut longer = bytes.clone();
    longer.push(0);
    assert!(BloomFilter::from_bytes(&longer).is_none());
    let mut no_bits = bytes.clone();
    for b in no_bits.iter_mut().take(8) {
        *b = 0;
    }
    assert!(BloomFilter::from_bytes(&no_bits).is_none());
}
