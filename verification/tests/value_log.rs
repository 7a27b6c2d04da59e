use lsmkv::codec::{append_bytes, put_u32_le, put_u64_le, read_bytes, read_u32_le, read_u64_le};
use lsmkv::value_log::{ValueLog, VLOG_HEADER_LEN};

#[test]
fn record_layout_is_lengths_time_flag_key_value() {
    let bytes = ValueLog::encode(b"ab", b"xyz", 0x0102030405060708, true);
    assert_eq!(
        bytes,
        vec![
            2, 0, 0, 0, // key length
            3, 0, 0, 0, // value length
            8, 7, 6, 5, 4, 3, 2, 1, // creation time
            1, // tombstone
            b'a', b'b', b'x', b'y', b'z',
        ]
    );
    assert_eq!(bytes.len(), VLOG_HEADER_LEN + 2 + 3);
}

#[test]
fn empty_key_and_value_take_only_the_header() {
    let bytes = ValueLog::encode(b"", b"", 0, false);
    assert_eq!(bytes, vec![0u8; 17]);
}

#[test]
fn decode_reads_back_what_encode_wrote() {
    let mut log = ValueLog::encode(b"k1", b"v1", 5, false);
    let second = log.len();
    log.extend(ValueLog::encode(b"key2", b"", 6, true));
    let (first, next) = ValueLog::decode(&log, 0).unwrap();
    assert_eq!(first.key, b"k1");
    assert_eq!(first.value, b"v1");
    assert_eq!(first.created_at, 5);
    assert!(!first.is_tombstone);
    assert_eq!(next, second);
    let (entry, end) = ValueLog::decode(&log, second).unwrap();
    assert_eq!(entry.key, b"key2");
    assert!(entry.value.is_empty());
    assert_eq!(entry.created_at, 6);
    assert!(entry.is_tombstone);
    assert_eq!(end, log.len());
    assert!(ValueLog::decode(&log, end).is_none());
}

#[test]
fn decode_rejects_what_is_not_a_whole_record() {
    let log = ValueLog::encode(b"key", b"value", 1, false);
    assert!(ValueLog::decode(&log[..log.len() - 1], 0).is_none());
    assert!(ValueLog::decode(&log[..16], 0).is_none());
    assert!(ValueLog::decode(&log, 1).is_none());
    assert!(ValueLog::decode(&log, usize::MAX).is_none());
    assert!(ValueLog::decode(&[], 0).is_none());
    let mut bad_flag = log.clone();
    bad_flag[16] = 2;
    assert!(ValueLog::decode(&bad_flag, 0).is_none());
}

#[test]
fn get_hands_out_value_and_flag() {
    let mut log = ValueLog::encode(b"a", b"1", 1, false);
    let at = log.len();
    log.extend(ValueLog::encode(b"a", b"gone", 2, true));
    assert_eq!(ValueLog::get(&log, 0), Some((b"1".to_vec(), false)));
    assert_eq!(ValueLog::get(&log, at), Some((b"gone".to_vec(), true)));
    assert_eq!(ValueLog::get(&log, log.len()), None);
    assert_eq!(ValueLog::get(&log, 3), None);
}

#[test]
fn every_record_written_is_recovered_from_offset_zero() {
    let records: Vec<(Vec<u8>, Vec<u8>, u64, bool)> = vec![
        (b"a".to_vec(), b"1".to_vec(), 10, false),
        (vec![], vec![0, 255, 7], 11, false),
        (b"a".to_vec(), vec![], 12, true),
        (vec![0xff; 300], vec![0x7f; 1000], u64::MAX, false),
    ];
    let mut log = Vec::new();
    for (k, v, at, tomb) in &records {
        log.extend(ValueLog::encode(k, v, *at, *tomb));
    }
    let recovered = ValueLog::recover(&log, 0);
    assert_eq!(recovered.len(), records.len());
    for (got, (k, v, at, tomb)) in recovered.iter().zip(records.iter()) {
        assert_eq!(&got.key, k);
        assert_eq!(&got.value, v);
        assert_eq!(got.created_at, *at);
        assert_eq!(got.is_tombstone, *tomb);
    }
}

#[test]
fn recovery_starts_where_it_is_told_and_stops_at_a_torn_tail() {
    let mut log = ValueLog::encode(b"a", b"1", 1, false);
    let second = log.len();
    log.extend(ValueLog::encode(b"b", b"2", 2, false));
    let torn = ValueLog::encode(b"c", b"3", 3, false);
    log.extend(&torn[..torn.len() - 1]);
    let all = ValueLog::recover(&log, 0);
    assert_eq!(all.len(), 2);
    let from_second = ValueLog::recover(&log, second);
    assert_eq!(from_second.len(), 1);
    assert_eq!(from_second[0].key, b"b");
    assert!(ValueLog::recover(&log, log.len()).is_empty());
    assert!(ValueLog::recover(&log, log.len() + 10).is_empty());
}

#[test]
fn append_hands_out_offsets_that_add_up() {
    let mut vlog = ValueLog::new();
    let (first, bytes1) = vlog.append(b"k", b"v", 1, false);
    let (second, bytes2) = vlog.append(b"key", b"value", 2, false);
    assert_eq!(first, 0);
    assert_eq!(second, 19);
    assert_eq!(vlog.size, 19 + 25);
    assert_eq!(bytes1, ValueLog::encode(b"k", b"v", 1, false));
    assert_eq!(bytes2, ValueLog::encode(b"key", b"value", 2, false));
    vlog.set_head(19);
    vlog.set_tail(0);
    assert_eq!(vlog.head_offset, 19);
    assert_eq!(vlog.tail_offset, 0);
    vlog.clear_all();
    assert_eq!(vlog.size, 0);
    assert_eq!(vlog.head_offset, 0);
}

#[test]
fn tracker_over_existing_bytes_continues_at_their_end() {
    let log = ValueLog::encode(b"k", b"v", 1, false);
    let mut vlog = ValueLog::over(&log);
    assert_eq!(vlog.size, log.len());
    let (offset, _) = vlog.append(b"k2", b"", 2, false);
    assert_eq!(offset, log.len());
}

#[test]
fn little_endian_fields_round_trip() {
    let mut buf = vec![9u8];
    put_u32_le(&mut buf, 0x01020304);
    put_u64_le(&mut buf, 0x1112131415161718);
    append_bytes(&mut buf, &[7, 8]);
    assert_eq!(buf, vec![9, 4, 3, 2, 1, 0x18, 0x17, 0x16, 0x15, 0x14, 0x13, 0x12, 0x11, 7, 8]);
    assert_eq!(read_u32_le(&buf, 1), 0x01020304);
    assert_eq!(read_u64_le(&buf, 5), 0x1112131415161718);
    assert_eq!(read_bytes(&buf, 13, 2), vec![7, 8]);
    assert_eq!(read_bytes(&buf, 15, 0), Vec::<u8>::new());
}
