use lsmkv::key_range::range::{KeyRange, Range};
use lsmkv::sstable::table::Table;

fn table(name: &str) -> Table {
    Table::new(
        format!("buckets/b/{}", name),
        format!("buckets/b/{}/data.bin", name),
        format!("buckets/b/{}/index.bin", name),
    )
}

#[test]
fn set_reports_whether_the_path_was_known() {
    let mut ranges = KeyRange::new();
    let t = table("one");
    assert!(!ranges.set(t.get_data_file_path(), vec![1], vec![9], t.clone()));
    assert!(ranges.set(t.get_data_file_path(), vec![2], vec![8], t.clone()));
    assert_eq!(ranges.key_ranges.len(), 1);
    assert_eq!(ranges.key_ranges[0].1.smallest_key, vec![2]);
    assert_eq!(ranges.key_ranges[0].1.biggest_key, vec![8]);
}

#[test]
fn range_new_keeps_its_arguments() {
    let t = table("r");
    let r = Range::new(vec![1, 2], vec![3, 4], t.clone());
    assert_eq!(r.smallest_key, vec![1, 2]);
    assert_eq!(r.biggest_key, vec![3, 4]);
    assert_eq!(r.sst.data_file_path, t.data_file_path);
}

fn ranges() -> KeyRange {
    let mut r = KeyRange::new();
    for (name, lo, hi) in [("one", "b", "f"), ("two", "g", "m"), ("three", "a", "z")] {
        let t = table(name);
        r.set(t.get_data_file_path(), lo.as_bytes().to_vec(), hi.as_bytes().to_vec(), t);
    }
    r
}

fn dirs(tables: &[Table]) -> Vec<String> {
    tables.iter().map(|t| t.dir.clone()).collect()
}

#[test]
fn filter_keeps_tables_whose_biggest_key_reaches_the_probe() {
    let r = ranges();
    assert_eq!(dirs(&r.filter_sstables_by_biggest_key(&b"a".to_vec())), vec!["buckets/b/one", "buckets/b/two", "buckets/b/three"]);
    assert_eq!(dirs(&r.filter_sstables_by_biggest_key(&b"f".to_vec())), vec!["buckets/b/one", "buckets/b/two", "buckets/b/three"]);
    assert_eq!(dirs(&r.filter_sstables_by_biggest_key(&b"fa".to_vec())), vec!["buckets/b/two", "buckets/b/three"]);
    assert_eq!(dirs(&r.filter_sstables_by_biggest_key(&b"n".to_vec())), vec!["buckets/b/three"]);
    assert!(r.filter_sstables_by_biggest_key(&b"zz".to_vec()).is_empty());
    assert!(KeyRange::new().filter_sstables_by_biggest_key(&b"a".to_vec()).is_empty());
}

#[test]
fn range_scan_keeps_envelopes_that_meet_the_interval() {
    let r = ranges();
    let hit = |lo: &str, hi: &str| -> Vec<String> {
        r.range_scan(&lo.as_bytes().to_vec(), &hi.as_bytes().to_vec())
            .iter()
            .map(|x| x.sst.dir.clone())
            .collect()
    };
    assert_eq!(hit("c", "d"), vec!["buckets/b/one", "buckets/b/three"]);
    assert_eq!(hit("f", "g"), vec!["buckets/b/one", "buckets/b/two", "buckets/b/three"]);
    assert_eq!(hit("n", "y"), vec!["buckets/b/three"]);
    assert_eq!(hit("a", "a"), vec!["buckets/b/three"]);
    assert!(hit("zz", "zzz").is_empty());
    assert!(hit("", "").is_empty());
    assert_eq!(hit("m", "b"), vec!["buckets/b/three"]);
}

#[test]
fn remove_reports_whether_the_path_was_known() {
    let mut r = ranges();
    let t = table("two");
    assert!(r.contains_path(&t.get_data_file_path()));
    assert!(r.remove(t.get_data_file_path()));
    assert!(!r.contains_path(&t.get_data_file_path()));
    assert!(!r.remove(t.get_data_file_path()));
    assert_eq!(r.key_ranges.len(), 2);
    assert_eq!(dirs(&r.filter_sstables_by_biggest_key(&b"a".to_vec())), vec!["buckets/b/one", "buckets/b/three"]);
}
