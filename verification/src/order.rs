//! The order of keys: byte-wise lexicographic order of their UTF-8 encoding.

use vstd::prelude::*;
use vstd::utf8::{decode_utf8, encode_utf8, encode_utf8_decode_utf8};

verus! {

/// The bytes by which a key is ordered and matched.
pub open spec fn key_bytes(s: Seq<char>) -> Seq<u8> {
    encode_utf8(s)
}

/// `a` and `b` hold the same bytes at every index below `k`.
pub open spec fn agree_upto(a: Seq<u8>, b: Seq<u8>, k: int) -> bool {
    &&& 0 <= k <= a.len()
    &&& k <= b.len()
    &&& forall|i: int| 0 <= i < k ==> a[i] == b[i]
}

/// `a` sorts before `b`, and index `k` is where this shows: either `a` ends
/// there and `b` goes on, or `a` holds the smaller byte there.
pub open spec fn lt_at(a: Seq<u8>, b: Seq<u8>, k: int) -> bool {
    &&& agree_upto(a, b, k)
    &&& (k == a.len() && k < b.len()) || (k < a.len() && k < b.len() && a[k] < b[k])
}

/// Strict lexicographic order on byte strings.
pub open spec fn bytes_lt(a: Seq<u8>, b: Seq<u8>) -> bool {
    exists|k: int| #[trigger] lt_at(a, b, k)
}

/// `p` is a prefix of `s`.
pub open spec fn bytes_prefix(p: Seq<u8>, s: Seq<u8>) -> bool {
    p.len() <= s.len() && s.subrange(0, p.len() as int) == p
}

/// Strict order on keys.
pub open spec fn str_lt(a: Seq<char>, b: Seq<char>) -> bool {
    bytes_lt(key_bytes(a), key_bytes(b))
}

/// Key `s` starts with the bytes of `p`.
pub open spec fn str_prefix(p: Seq<char>, s: Seq<char>) -> bool {
    bytes_prefix(key_bytes(p), key_bytes(s))
}

/// Nothing sorts before itself.
pub proof fn lemma_lt_irreflexive(a: Seq<u8>)
    ensures
        !bytes_lt(a, a),
{
    assert forall|k: int| !#[trigger] lt_at(a, a, k) by {}
}

/// Of two byte strings at most one sorts before the other.
pub proof fn lemma_lt_asymmetric(a: Seq<u8>, b: Seq<u8>)
    requires
        bytes_lt(a, b),
    ensures
        !bytes_lt(b, a),
{
    let k1 = choose|k: int| #[trigger] lt_at(a, b, k);
    assert forall|k2: int| !#[trigger] lt_at(b, a, k2) by {
        if lt_at(b, a, k2) {
            if k1 < k2 {
                assert(a[k1] == b[k1]);
            } else if k2 < k1 {
                assert(a[k2] == b[k2]);
            }
        }
    }
}

/// The order is transitive.
pub proof fn lemma_lt_transitive(a: Seq<u8>, b: Seq<u8>, c: Seq<u8>)
    requires
        bytes_lt(a, b),
        bytes_lt(b, c),
    ensures
        bytes_lt(a, c),
{
    let k1 = choose|k: int| #[trigger] lt_at(a, b, k);
    let k2 = choose|k: int| #[trigger] lt_at(b, c, k);
    let k = if k1 <= k2 { k1 } else { k2 };
    assert(agree_upto(a, c, k)) by {
        assert forall|i: int| 0 <= i < k implies a[i] == c[i] by {
            assert(a[i] == b[i]);
            assert(b[i] == c[i]);
        }
    }
    if k1 < k2 {
        assert(b[k1] == c[k1]);
    } else if k2 < k1 {
        assert(a[k2] == b[k2]);
    }
    assert(lt_at(a, c, k));
}

/// Two byte strings that agree below `k` are equal, or one sorts before the
/// other.
proof fn lemma_lt_total_from(a: Seq<u8>, b: Seq<u8>, k: int)
    requires
        agree_upto(a, b, k),
    ensures
        a == b || bytes_lt(a, b) || bytes_lt(b, a),
    decreases a.len() - k,
{
    assert(agree_upto(b, a, k));
    if k == a.len() {
        if k == b.len() {
            assert(a =~= b);
        } else {
            assert(lt_at(a, b, k));
        }
    } else if k == b.len() {
        assert(lt_at(b, a, k));
    } else if a[k] < b[k] {
        assert(lt_at(a, b, k));
    } else if a[k] > b[k] {
        assert(lt_at(b, a, k));
    } else {
        assert(agree_upto(a, b, k + 1));
        lemma_lt_total_from(a, b, k + 1);
    }
}

/// Two byte strings are equal, or one sorts before the other.
pub proof fn lemma_lt_total(a: Seq<u8>, b: Seq<u8>)
    ensures
        a == b || bytes_lt(a, b) || bytes_lt(b, a),
{
    lemma_lt_total_from(a, b, 0);
}

/// Two keys are the same, or one sorts before the other.
pub proof fn lemma_str_total(a: Seq<char>, b: Seq<char>)
    ensures
        a == b || str_lt(a, b) || str_lt(b, a),
{
    lemma_lt_total(key_bytes(a), key_bytes(b));
    if key_bytes(a) == key_bytes(b) {
        lemma_key_bytes_injective(a, b);
    }
}

/// Two keys with the same bytes are the same key.
pub proof fn lemma_key_bytes_injective(a: Seq<char>, b: Seq<char>)
    requires
        key_bytes(a) == key_bytes(b),
    ensures
        a == b,
{
    encode_utf8_decode_utf8(a);
    encode_utf8_decode_utf8(b);
    assert(decode_utf8(encode_utf8(a)) == a);
    assert(decode_utf8(encode_utf8(b)) == b);
}

/// How one key stands to another.
#[derive(Clone, Copy, Debug, PartialEq, Eq)]
pub enum KeyOrder {
    Less,
    Equal,
    Greater,
}

/// Compares two byte strings.
pub fn bytes_order(a: &[u8], b: &[u8]) -> (r: KeyOrder)
    ensures
        r is Less <==> bytes_lt(a@, b@),
        r is Equal <==> a@ == b@,
        r is Greater <==> bytes_lt(b@, a@),
{
    let mut i: usize = 0;
    while i < a.len() && i < b.len()
        invariant
            agree_upto(a@, b@, i as int),
        decreases a.len() - i,
    {
        if a[i] < b[i] {
            proof {
                assert(lt_at(a@, b@, i as int));
                lemma_lt_asymmetric(a@, b@);
            }
            return KeyOrder::Less;
        }
        if a[i] > b[i] {
            proof {
                assert(lt_at(b@, a@, i as int));
                lemma_lt_asymmetric(b@, a@);
            }
            return KeyOrder::Greater;
        }
        i += 1;
    }
    if a.len() < b.len() {
        proof {
            assert(lt_at(a@, b@, i as int));
            lemma_lt_asymmetric(a@, b@);
        }
        KeyOrder::Less
    } else if b.len() < a.len() {
        proof {
            assert(lt_at(b@, a@, i as int));
            lemma_lt_asymmetric(b@, a@);
        }
        KeyOrder::Greater
    } else {
        proof {
            assert(a@ =~= b@);
            lemma_lt_irreflexive(a@);
        }
        KeyOrder::Equal
    }
}

/// Compares two keys.
pub fn str_order(a: &str, b: &str) -> (r: KeyOrder)
    ensures
        r is Less <==> str_lt(a@, b@),
        r is Equal <==> a@ == b@,
        r is Greater <==> str_lt(b@, a@),
{
    let r = bytes_order(a.as_bytes(), b.as_bytes());
    proof {
        if key_bytes(a@) == key_bytes(b@) {
            lemma_key_bytes_injective(a@, b@);
        }
    }
    r
}

/// Whether key `s` starts with `p`.
pub fn starts_with(s: &str, p: &str) -> (r: bool)
    ensures
        r == str_prefix(p@, s@),
{
    let sb = s.as_bytes();
    let pb = p.as_bytes();
    if pb.len() > sb.len() {
        return false;
    }
    let mut i: usize = 0;
    while i < pb.len()
        invariant
            sb@ == key_bytes(s@),
            pb@ == key_bytes(p@),
            pb.len() <= sb.len(),
            i <= pb.len(),
            forall|j: int| 0 <= j < i ==> sb@[j] == pb@[j],
        decreases pb.len() - i,
    {
        if sb[i] != pb[i] {
            proof {
                let sub = key_bytes(s@).subrange(0, key_bytes(p@).len() as int);
                assert(sub[i as int] == sb@[i as int]);
                assert(sub[i as int] != key_bytes(p@)[i as int]);
            }
            return false;
        }
        i += 1;
    }
    proof {
        assert(sb@.subrange(0, pb@.len() as int) =~= pb@);
    }
    true
}

/// Strict order on pairs of partition key and sort key: by partition key, and
/// within one partition by sort key.
pub open spec fn key_lt(pk1: Seq<char>, sk1: Seq<char>, pk2: Seq<char>, sk2: Seq<char>) -> bool {
    str_lt(pk1, pk2) || (pk1 == pk2 && str_lt(sk1, sk2))
}

/// No pair of keys sorts before itself, and of two pairs at most one sorts
/// before the other.
pub proof fn lemma_key_lt_asymmetric(pk1: Seq<char>, sk1: Seq<char>, pk2: Seq<char>, sk2: Seq<char>)
    ensures
        !key_lt(pk1, sk1, pk1, sk1),
        key_lt(pk1, sk1, pk2, sk2) ==> !key_lt(pk2, sk2, pk1, sk1),
{
    lemma_lt_irreflexive(key_bytes(pk1));
    lemma_lt_irreflexive(key_bytes(sk1));
    if str_lt(pk1, pk2) {
        lemma_lt_asymmetric(key_bytes(pk1), key_bytes(pk2));
    }
    if str_lt(sk1, sk2) {
        lemma_lt_asymmetric(key_bytes(sk1), key_bytes(sk2));
    }
}

/// The order on pairs of keys is transitive.
pub proof fn lemma_key_lt_transitive(
    pk1: Seq<char>,
    sk1: Seq<char>,
    pk2: Seq<char>,
    sk2: Seq<char>,
    pk3: Seq<char>,
    sk3: Seq<char>,
)
    requires
        key_lt(pk1, sk1, pk2, sk2),
        key_lt(pk2, sk2, pk3, sk3),
    ensures
        key_lt(pk1, sk1, pk3, sk3),
{
    if str_lt(pk1, pk2) && str_lt(pk2, pk3) {
        lemma_lt_transitive(key_bytes(pk1), key_bytes(pk2), key_bytes(pk3));
    }
    if str_lt(sk1, sk2) && str_lt(sk2, sk3) {
        lemma_lt_transitive(key_bytes(sk1), key_bytes(sk2), key_bytes(sk3));
    }
}

/// Compares two pairs of partition key and sort key.
pub fn pair_order(pk1: &str, sk1: &str, pk2: &str, sk2: &str) -> (r: KeyOrder)
    ensures
        r is Less <==> key_lt(pk1@, sk1@, pk2@, sk2@),
        r is Equal <==> pk1@ == pk2@ && sk1@ == sk2@,
        r is Greater <==> key_lt(pk2@, sk2@, pk1@, sk1@),
{
    match str_order(pk1, pk2) {
        KeyOrder::Less => KeyOrder::Less,
        KeyOrder::Greater => KeyOrder::Greater,
        KeyOrder::Equal => str_order(sk1, sk2),
    }
}

} // verus!
