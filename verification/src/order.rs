//! The order of words: byte-wise lexicographic on their UTF-8 encoding,
//! which is the order Rust gives to `str`.

use vstd::prelude::*;
use vstd::string::StringSliceAdditionalSpecFns;
use vstd::utf8::{encode_utf8, encode_utf8_decode_utf8};

verus! {

/// `a` comes before `b` in lexicographic order: `a` is a proper prefix of
/// `b`, or at the first position where the two differ `a` holds the smaller
/// byte.
pub open spec fn bytes_lt(a: Seq<u8>, b: Seq<u8>) -> bool {
    exists|k: int| #[trigger] differs_at(a, b, k)
}

/// `a` and `b` agree on their first `k` bytes, and at position `k` either
/// `a` ends while `b` goes on, or `a` holds the smaller byte.
pub open spec fn differs_at(a: Seq<u8>, b: Seq<u8>, k: int) -> bool {
    &&& 0 <= k <= a.len()
    &&& k < b.len()
    &&& forall|i: int| 0 <= i < k ==> a[i] == b[i]
    &&& (k < a.len() ==> a[k] < b[k])
}

/// The order of words.
pub open spec fn word_lt(a: Seq<char>, b: Seq<char>) -> bool {
    bytes_lt(encode_utf8(a), encode_utf8(b))
}

/// A sequence of words in strictly ascending order.
pub open spec fn ascending(words: Seq<Seq<char>>) -> bool {
    forall|i: int, j: int| 0 <= i < j < words.len() ==> word_lt(#[trigger] words[i], #[trigger] words[j])
}

/// How two words stand to each other.
#[derive(Clone, Copy, Debug, PartialEq, Eq, Structural)]
pub enum WordOrder {
    Before,
    Same,
    After,
}

pub proof fn lemma_bytes_lt_irreflexive(a: Seq<u8>)
    ensures
        !bytes_lt(a, a),
{
}

pub proof fn lemma_bytes_lt_transitive(a: Seq<u8>, b: Seq<u8>, c: Seq<u8>)
    requires
        bytes_lt(a, b),
        bytes_lt(b, c),
    ensures
        bytes_lt(a, c),
{
    let k1 = choose|k: int| differs_at(a, b, k);
    let k2 = choose|k: int| differs_at(b, c, k);
    let k = if k1 <= k2 { k1 } else { k2 };
    assert(differs_at(a, c, k));
}

/// Either two byte strings agree on their first `n` bytes, or one comes
/// before the other.
proof fn lemma_bytes_prefix(a: Seq<u8>, b: Seq<u8>, n: int)
    requires
        0 <= n <= a.len(),
        n <= b.len(),
    ensures
        bytes_lt(a, b) || bytes_lt(b, a) || forall|i: int| 0 <= i < n ==> a[i] == b[i],
    decreases n,
{
    if n > 0 {
        lemma_bytes_prefix(a, b, n - 1);
        if !bytes_lt(a, b) && !bytes_lt(b, a) {
            if a[n - 1] < b[n - 1] {
                assert(differs_at(a, b, n - 1));
            } else if b[n - 1] < a[n - 1] {
                assert(differs_at(b, a, n - 1));
            }
        }
    }
}

pub proof fn lemma_bytes_lt_total(a: Seq<u8>, b: Seq<u8>)
    ensures
        bytes_lt(a, b) || bytes_lt(b, a) || a == b,
{
    let n = if a.len() <= b.len() { a.len() as int } else { b.len() as int };
    lemma_bytes_prefix(a, b, n);
    if !bytes_lt(a, b) && !bytes_lt(b, a) {
        if a.len() < b.len() {
            assert(differs_at(a, b, n));
        } else if b.len() < a.len() {
            assert(differs_at(b, a, n));
        } else {
            assert(a =~= b);
        }
    }
}

/// No word comes before itself.
pub proof fn lemma_word_lt_irreflexive(a: Seq<char>)
    ensures
        !word_lt(a, a),
{
}

/// The order of words is transitive.
pub proof fn lemma_word_lt_transitive(a: Seq<char>, b: Seq<char>, c: Seq<char>)
    requires
        word_lt(a, b),
        word_lt(b, c),
    ensures
        word_lt(a, c),
{
    lemma_bytes_lt_transitive(encode_utf8(a), encode_utf8(b), encode_utf8(c));
}

/// Of two words that come before each other neither way, there is only one.
pub proof fn lemma_word_lt_total(a: Seq<char>, b: Seq<char>)
    ensures
        word_lt(a, b) || word_lt(b, a) || a == b,
{
    lemma_bytes_lt_total(encode_utf8(a), encode_utf8(b));
    encode_utf8_decode_utf8(a);
    encode_utf8_decode_utf8(b);
}

/// No two words come before each other both ways.
pub proof fn lemma_word_lt_asymmetric(a: Seq<char>, b: Seq<char>)
    requires
        word_lt(a, b),
    ensures
        !word_lt(b, a),
        a != b,
{
    if word_lt(b, a) {
        lemma_word_lt_transitive(a, b, a);
    }
}

/// Compares two words byte by byte.
pub fn compare_words(a: &str, b: &str) -> (r: WordOrder)
    ensures
        r == WordOrder::Before <==> word_lt(a@, b@),
        r == WordOrder::Same <==> a@ == b@,
        r == WordOrder::After <==> word_lt(b@, a@),
{
    let x = a.as_bytes();
    let y = b.as_bytes();
    let n: usize = x.len();
    let m: usize = y.len();
    let mut i: usize = 0;
    proof {
        lemma_word_lt_total(a@, b@);
        if word_lt(a@, b@) {
            lemma_word_lt_asymmetric(a@, b@);
        }
        if word_lt(b@, a@) {
            lemma_word_lt_asymmetric(b@, a@);
        }
    }
    while i < n && i < m
        invariant
            i <= n,
            i <= m,
            n == x@.len(),
            m == y@.len(),
            x@ == encode_utf8(a@),
            y@ == encode_utf8(b@),
            forall|j: int| 0 <= j < i ==> x@[j] == y@[j],
        decreases n - i,
    {
        if x[i] < y[i] {
            assert(differs_at(x@, y@, i as int));
            return WordOrder::Before;
        }
        if y[i] < x[i] {
            assert(differs_at(y@, x@, i as int));
            return WordOrder::After;
        }
        i += 1;
    }
    if n < m {
        assert(differs_at(x@, y@, i as int));
        WordOrder::Before
    } else if m < n {
        assert(differs_at(y@, x@, i as int));
        WordOrder::After
    } else {
        assert(x@ =~= y@);
        proof {
            encode_utf8_decode_utf8(a@);
            encode_utf8_decode_utf8(b@);
        }
        WordOrder::Same
    }
}

} // verus!
