//! The order of keys: byte by byte over their UTF-8 encoding.

use vstd::prelude::*;
use vstd::utf8::{encode_utf8, encode_utf8_decode_utf8};

verus! {

/// `a` and `b` hold the same bytes at every position below `n`.
pub open spec fn agree_before(a: Seq<u8>, b: Seq<u8>, n: int) -> bool {
    &&& 0 <= n <= a.len()
    &&& n <= b.len()
    &&& forall|j: int| 0 <= j < n ==> a[j] == b[j]
}

/// Position `n` decides that `a` comes before `b`: up to there they agree,
/// and there `a` ends or holds the smaller byte.
pub open spec fn precedes_at(a: Seq<u8>, b: Seq<u8>, n: int) -> bool {
    &&& agree_before(a, b, n)
    &&& n < b.len()
    &&& (n == a.len() || a[n] < b[n])
}

/// `a` comes strictly before `b` in lexicographic order.
pub open spec fn bytes_precede(a: Seq<u8>, b: Seq<u8>) -> bool {
    exists|n: int| precedes_at(a, b, n)
}

/// Key `a` comes strictly before key `b`: their UTF-8 encodings do.
pub open spec fn key_precedes(a: Seq<char>, b: Seq<char>) -> bool {
    bytes_precede(encode_utf8(a), encode_utf8(b))
}

/// How one key stands to another.
#[derive(Clone, Copy, Debug, PartialEq, Eq)]
pub enum KeyOrder {
    Before,
    Same,
    After,
}

/// How key `a` stands to key `b`.
pub open spec fn key_order(a: Seq<char>, b: Seq<char>) -> KeyOrder {
    if a == b {
        KeyOrder::Same
    } else if key_precedes(a, b) {
        KeyOrder::Before
    } else {
        KeyOrder::After
    }
}

/// No sequence of bytes comes before itself, and of two sequences at most one
/// comes before the other.
pub proof fn lemma_precede_asymmetric(a: Seq<u8>, b: Seq<u8>)
    requires
        bytes_precede(a, b),
    ensures
        a != b,
        !bytes_precede(b, a),
{
    let n = choose|n: int| precedes_at(a, b, n);
    if bytes_precede(b, a) {
        let m = choose|m: int| precedes_at(b, a, m);
        if m < n {
            assert(a[m] == b[m]);
        } else if n < m {
            assert(b[n] == a[n]);
        }
    }
}

/// What comes before something that comes before `c` comes before `c`.
pub proof fn lemma_precede_transitive(a: Seq<u8>, b: Seq<u8>, c: Seq<u8>)
    requires
        bytes_precede(a, b),
        bytes_precede(b, c),
    ensures
        bytes_precede(a, c),
{
    let n = choose|n: int| precedes_at(a, b, n);
    let m = choose|m: int| precedes_at(b, c, m);
    let k = if n <= m { n } else { m };
    assert forall|j: int| 0 <= j < k implies a[j] == c[j] by {
        assert(a[j] == b[j]);
        assert(b[j] == c[j]);
    }
    if n < m {
        assert(b[n] == c[n]);
    } else if m < n {
        assert(a[m] == b[m]);
    }
    assert(precedes_at(a, c, k));
}

/// Of two different sequences of bytes, one comes before the other.
pub proof fn lemma_precede_total(a: Seq<u8>, b: Seq<u8>)
    ensures
        a == b || bytes_precede(a, b) || bytes_precede(b, a),
{
    lemma_first_difference(a, b, 0);
}

proof fn lemma_first_difference(a: Seq<u8>, b: Seq<u8>, n: int)
    requires
        agree_before(a, b, n),
    ensures
        a == b || bytes_precede(a, b) || bytes_precede(b, a),
    decreases a.len() - n,
{
    if n == a.len() && n == b.len() {
        assert(a =~= b);
    } else if n == a.len() {
        assert(precedes_at(a, b, n));
    } else if n == b.len() {
        assert(agree_before(b, a, n));
        assert(precedes_at(b, a, n));
    } else if a[n] < b[n] {
        assert(precedes_at(a, b, n));
    } else if b[n] < a[n] {
        assert(agree_before(b, a, n));
        assert(precedes_at(b, a, n));
    } else {
        lemma_first_difference(a, b, n + 1);
    }
}

/// Keys with the same encoding are the same key.
pub proof fn lemma_encoding_injective(a: Seq<char>, b: Seq<char>)
    requires
        encode_utf8(a) == encode_utf8(b),
    ensures
        a == b,
{
    encode_utf8_decode_utf8(a);
    encode_utf8_decode_utf8(b);
}

/// Compares two keys byte by byte.
pub fn compare_keys(a: &str, b: &str) -> (order: KeyOrder)
    ensures
        order == key_order(a@, b@),
{
    let x = a.as_bytes();
    let y = b.as_bytes();
    let mut i: usize = 0;
    while i < x.len() && i < y.len()
        invariant
            x@ == encode_utf8(a@),
            y@ == encode_utf8(b@),
            agree_before(x@, y@, i as int),
        decreases x.len() - i,
    {
        if x[i] < y[i] {
            proof {
                assert(precedes_at(x@, y@, i as int));
                lemma_precede_asymmetric(x@, y@);
            }
            return KeyOrder::Before;
        }
        if y[i] < x[i] {
            proof {
                assert(agree_before(y@, x@, i as int));
                assert(precedes_at(y@, x@, i as int));
                lemma_precede_asymmetric(y@, x@);
            }
            return KeyOrder::After;
        }
        i += 1;
    }
    if i < y.len() {
        proof {
            assert(precedes_at(x@, y@, i as int));
            lemma_precede_asymmetric(x@, y@);
        }
        KeyOrder::Before
    } else if i < x.len() {
        proof {
            assert(agree_before(y@, x@, i as int));
            assert(precedes_at(y@, x@, i as int));
            lemma_precede_asymmetric(y@, x@);
        }
        KeyOrder::After
    } else {
        proof {
            assert(x@ =~= y@);
            lemma_encoding_injective(a@, b@);
        }
        KeyOrder::Same
    }
}

} // verus!
