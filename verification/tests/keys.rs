use lsmkv::consts::{head_key, is_reserved_key, tail_key};
use lsmkv::keys::{clone_key, key_from_slice, key_is_eq, key_is_le, key_order, KeyOrder};

#[test]
fn shorter_key_sorts_before_its_extension() {
    assert_eq!(key_order(b"ab", b"abc"), KeyOrder::Less);
    assert_eq!(key_order(b"abc", b"ab"), KeyOrder::Greater);
}

#[test]
fn first_differing_byte_decides() {
    assert_eq!(key_order(b"abd", b"abcz"), KeyOrder::Greater);
    assert_eq!(key_order(b"a", b"b"), KeyOrder::Less);
    assert_eq!(key_order(&[0xff], &[0x01, 0x02]), KeyOrder::Greater);
}

#[test]
fn equal_keys_are_equal() {
    assert_eq!(key_order(b"same", b"same"), KeyOrder::Equal);
    assert_eq!(key_order(b"", b""), KeyOrder::Equal);
    assert!(key_is_eq(b"k", b"k"));
    assert!(!key_is_eq(b"k", b"kk"));
}

#[test]
fn empty_key_sorts_first() {
    assert_eq!(key_order(b"", b"a"), KeyOrder::Less);
    assert!(key_is_le(b"", b""));
    assert!(key_is_le(b"", b"\x00"));
    assert!(!key_is_le(b"\x00", b""));
}

#[test]
fn key_order_agrees_with_vec_order() {
    let keys: Vec<Vec<u8>> = vec![
        vec![],
        vec![0],
        vec![0, 0],
        vec![0, 1],
        vec![1],
        vec![1, 0, 255],
        vec![1, 1],
        vec![255],
    ];
    for a in &keys {
        for b in &keys {
            let expected = match a.cmp(b) {
                std::cmp::Ordering::Less => KeyOrder::Less,
                std::cmp::Ordering::Equal => KeyOrder::Equal,
                std::cmp::Ordering::Greater => KeyOrder::Greater,
            };
            assert_eq!(key_order(a, b), expected);
            assert_eq!(key_is_le(a, b), a <= b);
        }
    }
}

#[test]
fn copies_hold_the_same_bytes() {
    let k = vec![1u8, 2, 3];
    assert_eq!(clone_key(&k), k);
    assert_eq!(key_from_slice(&k[1..]), vec![2u8, 3]);
}

#[test]
fn sentinel_keys_are_reserved_and_distinct() {
    assert_eq!(head_key(), vec![0u8, b'H', b'E', b'A', b'D']);
    assert_eq!(tail_key(), vec![0u8, b'T', b'A', b'I', b'L']);
    assert!(is_reserved_key(&head_key()));
    assert!(is_reserved_key(&tail_key()));
    assert!(!is_reserved_key(b"HEAD"));
    assert!(!is_reserved_key(b""));
    assert!(is_reserved_key(&[0u8]));
}
