//! Byte-string keys and their lexicographic order.

use vstd::prelude::*;

verus! {

/// The first `n` bytes of `a` and `b` agree.
pub open spec fn common_prefix(a: Seq<u8>, b: Seq<u8>, n: int) -> bool {
    &&& 0 <= n <= a.len()
    &&& n <= b.len()
    &&& forall|i: int| 0 <= i < n ==> a[i] == b[i]
}

/// `a` and `b` agree on their first `n` bytes and `a` sorts first at position
/// `n`: either `a` ends there and `b` goes on, or `a` has the smaller byte.
pub open spec fn splits_at(a: Seq<u8>, b: Seq<u8>, n: int) -> bool {
    &&& common_prefix(a, b, n)
    &&& n < b.len()
    &&& (n == a.len() || a[n] < b[n])
}

/// Strict lexicographic order on byte strings: the order of `Vec<u8>`.
pub open spec fn key_lt(a: Seq<u8>, b: Seq<u8>) -> bool {
    exists|n: int| splits_at(a, b, n)
}

/// Lexicographic order on byte strings.
pub open spec fn key_le(a: Seq<u8>, b: Seq<u8>) -> bool {
    a == b || key_lt(a, b)
}

/// How two keys relate in lexicographic order.
#[derive(Clone, Copy, Debug, PartialEq, Eq, Structural)]
pub enum KeyOrder {
    Less,
    Equal,
    Greater,
}

/// The relation of `a` to `b` as a value.
pub open spec fn key_order_of(a: Seq<u8>, b: Seq<u8>) -> KeyOrder {
    if a == b {
        KeyOrder::Equal
    } else if key_lt(a, b) {
        KeyOrder::Less
    } else {
        KeyOrder::Greater
    }
}

/// No key sorts before itself.
pub proof fn lemma_key_lt_irreflexive(a: Seq<u8>)
    ensures
        !key_lt(a, a),
{
}

/// Two keys that each sort no later than the other are the same key.
pub proof fn lemma_key_lt_asymmetric(a: Seq<u8>, b: Seq<u8>)
    requires
        key_lt(a, b),
    ensures
        !key_lt(b, a),
        a != b,
{
    let n = choose|n: int| splits_at(a, b, n);
    if key_lt(b, a) {
        let m = choose|m: int| splits_at(b, a, m);
        if n < m {
            assert(b[n] == a[n]);
        } else if m < n {
            assert(a[m] == b[m]);
        }
    }
}

/// The strict order is transitive.
pub proof fn lemma_key_lt_transitive(a: Seq<u8>, b: Seq<u8>, c: Seq<u8>)
    requires
        key_lt(a, b),
        key_lt(b, c),
    ensures
        key_lt(a, c),
{
    let n = choose|n: int| splits_at(a, b, n);
    let m = choose|m: int| splits_at(b, c, m);
    let k = if n <= m { n } else { m };
    assert forall|i: int| 0 <= i < k implies a[i] == c[i] by {
        assert(a[i] == b[i]);
        assert(b[i] == c[i]);
    }
    if n < m {
        assert(b[n] == c[n]);
    } else if m < n {
        assert(a[m] == b[m]);
    }
    assert(splits_at(a, c, k));
}

/// The order is transitive.
pub proof fn lemma_key_le_transitive(a: Seq<u8>, b: Seq<u8>, c: Seq<u8>)
    requires
        key_le(a, b),
        key_le(b, c),
    ensures
        key_le(a, c),
{
    if a != b && b != c {
        lemma_key_lt_transitive(a, b, c);
    }
}

/// Two keys that agree on their first `n` bytes are equal, or one of them
/// sorts strictly before the other.
pub proof fn lemma_key_order_from(a: Seq<u8>, b: Seq<u8>, n: int)
    requires
        common_prefix(a, b, n),
    ensures
        a == b || key_lt(a, b) || key_lt(b, a),
    decreases a.len() - n,
{
    if n == a.len() && n == b.len() {
        assert(a =~= b);
    } else if n == a.len() {
        assert(splits_at(a, b, n));
    } else if n == b.len() {
        assert(common_prefix(b, a, n));
        assert(splits_at(b, a, n));
    } else if a[n] < b[n] {
        assert(splits_at(a, b, n));
    } else if b[n] < a[n] {
        assert(common_prefix(b, a, n));
        assert(splits_at(b, a, n));
    } else {
        lemma_key_order_from(a, b, n + 1);
    }
}

/// The order is total: of two keys, one sorts no later than the other.
pub proof fn lemma_key_le_total(a: Seq<u8>, b: Seq<u8>)
    ensures
        key_le(a, b) || key_le(b, a),
        !key_le(a, b) ==> key_lt(b, a),
{
    lemma_key_order_from(a, b, 0);
}

/// A copy of `key`.
pub fn clone_key(key: &Vec<u8>) -> (r: Vec<u8>)
    ensures
        r@ == key@,
{
    let r = key.clone();
    assert(r@ =~= key@);
    r
}

/// A copy of the bytes of `key`.
pub fn key_from_slice(key: &[u8]) -> (r: Vec<u8>)
    ensures
        r@ == key@,
{
    let mut r: Vec<u8> = Vec::new();
    let mut i: usize = 0;
    while i < key.len()
        invariant
            i <= key.len(),
            r@ == key@.subrange(0, i as int),
        decreases key.len() - i,
    {
        r.push(key[i]);
        assert(r@ =~= key@.subrange(0, i + 1));
        i += 1;
    }
    assert(r@ =~= key@);
    r
}

/// Compares two keys in lexicographic order.
pub fn key_order(a: &[u8], b: &[u8]) -> (r: KeyOrder)
    ensures
        r == key_order_of(a@, b@),
{
    let mut i: usize = 0;
    while i < a.len() && i < b.len()
        invariant
            common_prefix(a@, b@, i as int),
        decreases a.len() - i,
    {
        if a[i] < b[i] {
            proof {
                assert(splits_at(a@, b@, i as int));
            }
            return KeyOrder::Less;
        }
        if a[i] > b[i] {
            proof {
                assert(common_prefix(b@, a@, i as int));
                assert(splits_at(b@, a@, i as int));
                lemma_key_lt_asymmetric(b@, a@);
            }
            return KeyOrder::Greater;
        }
        i += 1;
    }
    if i < b.len() {
        proof {
            assert(splits_at(a@, b@, i as int));
        }
        KeyOrder::Less
    } else if i < a.len() {
        proof {
            assert(common_prefix(b@, a@, i as int));
            assert(splits_at(b@, a@, i as int));
            lemma_key_lt_asymmetric(b@, a@);
        }
        KeyOrder::Greater
    } else {
        proof {
            assert(a@ =~= b@);
        }
        KeyOrder::Equal
    }
}

/// Whether `a` sorts no later than `b`.
pub fn key_is_le(a: &[u8], b: &[u8]) -> (r: bool)
    ensures
        r == key_le(a@, b@),
{
    match key_order(a, b) {
        KeyOrder::Greater => false,
        _ => true,
    }
}

/// Whether two keys are the same byte string.
pub fn key_is_eq(a: &[u8], b: &[u8]) -> (r: bool)
    ensures
        r == (a@ == b@),
{
    match key_order(a, b) {
        KeyOrder::Equal => true,
        _ => false,
    }
}

} // verus!
