//! Bags of words: how often each word of a dictionary occurs in a document,
//! as plain counts and as shares of the document's length.

use vstd::prelude::*;
use crate::dictionary::{tokens, Dictionary};

verus! {

/// The tokens that `m` sends to `k`.
pub open spec fn maps_to(m: Map<Seq<char>, int>, k: int) -> spec_fn(Seq<char>) -> bool {
    |t: Seq<char>| m.contains_key(t) && m[t] == k
}

/// The tokens that are words of `m`.
pub open spec fn known_to(m: Map<Seq<char>, int>) -> spec_fn(Seq<char>) -> bool {
    |t: Seq<char>| m.contains_key(t)
}

/// How many tokens of `doc` are the word that `m` sends to `k`.
pub open spec fn occurrences(doc: Seq<Seq<char>>, m: Map<Seq<char>, int>, k: int) -> nat {
    doc.filter(maps_to(m, k)).len()
}

/// How many tokens of `doc` are words of `m`.
pub open spec fn known(doc: Seq<Seq<char>>, m: Map<Seq<char>, int>) -> nat {
    doc.filter(known_to(m)).len()
}

/// The bag of words of `doc` over `m`: one count for each index.
pub open spec fn bow_of(doc: Seq<Seq<char>>, m: Map<Seq<char>, int>) -> Seq<i64> {
    Seq::new(m.len(), |k: int| occurrences(doc, m, k) as i64)
}

/// The sum of the counts.
pub open spec fn total(counts: Seq<i64>) -> int
    decreases counts.len(),
{
    if counts.len() == 0 {
        0
    } else {
        total(counts.drop_last()) + counts.last()
    }
}

/// A mapping of finitely many words to indices below their number.
pub open spec fn indexed(m: Map<Seq<char>, int>) -> bool {
    &&& m.dom().finite()
    &&& forall|w: Seq<char>| m.contains_key(w) ==> 0 <= #[trigger] m[w] < m.len()
}

/// A bag of words as shares of the document: entry `i` stands for
/// `counts[i] / length`.
#[derive(Debug)]
pub struct Shares {
    pub counts: Vec<i64>,
    pub length: usize,
}

proof fn lemma_total_zero(counts: Seq<i64>)
    requires
        forall|i: int| 0 <= i < counts.len() ==> counts[i] == 0,
    ensures
        total(counts) == 0,
    decreases counts.len(),
{
    if counts.len() > 0 {
        lemma_total_zero(counts.drop_last());
    }
}

proof fn lemma_total_update(counts: Seq<i64>, k: int, v: i64)
    requires
        0 <= k < counts.len(),
    ensures
        total(counts.update(k, v)) == total(counts) - counts[k] + v,
    decreases counts.len(),
{
    let after = counts.update(k, v);
    if k == counts.len() - 1 {
        assert(after.drop_last() =~= counts.drop_last());
    } else {
        lemma_total_update(counts.drop_last(), k, v);
        assert(after.drop_last() =~= counts.drop_last().update(k, v));
    }
}

/// One more token: the count at its index goes up by one, where it is a
/// word of `m`.
proof fn lemma_bow_push(doc: Seq<Seq<char>>, t: Seq<char>, m: Map<Seq<char>, int>)
    requires
        indexed(m),
        doc.len() < i64::MAX,
    ensures
        m.contains_key(t) ==> bow_of(doc.push(t), m) == bow_of(doc, m).update(m[t], (bow_of(doc, m)[m[t]] + 1) as i64),
        m.contains_key(t) ==> bow_of(doc, m)[m[t]] < i64::MAX,
        !m.contains_key(t) ==> bow_of(doc.push(t), m) == bow_of(doc, m),
        known(doc.push(t), m) == known(doc, m) + if m.contains_key(t) { 1int } else { 0int },
{
    let next = doc.push(t);
    doc.lemma_filter_len_push(known_to(m), t);
    assert forall|k: int| 0 <= k < m.len() implies #[trigger] occurrences(next, m, k) == occurrences(doc, m, k) + if m.contains_key(t) && m[t] == k { 1int } else { 0int }
        && occurrences(doc, m, k) <= doc.len() by {
        doc.lemma_filter_len_push(maps_to(m, k), t);
        doc.lemma_filter_len(maps_to(m, k));
    }
    if m.contains_key(t) {
        assert(bow_of(next, m) =~= bow_of(doc, m).update(m[t], (bow_of(doc, m)[m[t]] + 1) as i64));
    } else {
        assert(bow_of(next, m) =~= bow_of(doc, m));
    }
}

/// The counts of a bag of words add up to the number of tokens that are
/// words of the dictionary.
pub proof fn lemma_bow_total(doc: Seq<Seq<char>>, m: Map<Seq<char>, int>)
    requires
        indexed(m),
        doc.len() <= i64::MAX,
    ensures
        total(bow_of(doc, m)) == known(doc, m),
    decreases doc.len(),
{
    if doc.len() == 0 {
        reveal(Seq::filter);
        lemma_total_zero(bow_of(doc, m));
    } else {
        let head = doc.drop_last();
        let t = doc.last();
        assert(head.push(t) =~= doc);
        lemma_bow_total(head, m);
        lemma_bow_push(head, t, m);
        if m.contains_key(t) {
            lemma_total_update(bow_of(head, m), m[t], (bow_of(head, m)[m[t]] + 1) as i64);
        }
    }
}

impl Dictionary {
    /// Counts, for each index, the tokens of `doc` that are the word with
    /// that index. Tokens that are no word of the dictionary are left out.
    pub fn doc_to_bow(&self, doc: &[&str]) -> (bow: Vec<i64>)
        requires
            self.wf(),
            doc@.len() <= i64::MAX,
        ensures
            bow@ == bow_of(tokens(doc@), self@),
            bow@.len() == self@.len(),
            total(bow@) == known(tokens(doc@), self@),
    {
        let ghost all = tokens(doc@);
        let size: usize = self.len();
        let mut bow: Vec<i64> = Vec::new();
        let mut k: usize = 0;
        while k < size
            invariant
                k <= size,
                bow@.len() == k,
                forall|i: int| 0 <= i < k ==> bow@[i] == 0,
            decreases size - k,
        {
            bow.push(0);
            k += 1;
        }
        let n: usize = doc.len();
        let mut at: usize = 0;
        proof {
            self.lemma_wf();
            reveal(Seq::filter);
            assert(all.take(0) =~= Seq::<Seq<char>>::empty());
            assert(bow@ =~= bow_of(all.take(0), self@));
        }
        while at < n
            invariant
                at <= n == doc@.len() <= i64::MAX,
                all == tokens(doc@),
                self.wf(),
                indexed(self@),
                self@.len() == size,
                bow@ == bow_of(all.take(at as int), self@),
            decreases n - at,
        {
            proof {
                lemma_bow_push(all.take(at as int), all[at as int], self@);
                assert(all.take(at as int).push(all[at as int]) =~= all.take(at + 1));
                assert(all[at as int] == doc@[at as int]@);
            }
            match self.word_index(doc[at]) {
                Some(index) => {
                    assert(0 <= index < self@.len());
                    let k: usize = index as usize;
                    let count: i64 = bow[k];
                    bow[k] = count + 1;
                },
                None => {},
            }
            at += 1;
        }
        proof {
            assert(all.take(n as int) =~= all);
            lemma_bow_total(all, self@);
        }
        bow
    }

    /// The bag of words of `doc` with the number of its tokens, by which
    /// each count is to be divided; `None` for a document without tokens.
    pub fn bow_normalized(&self, doc: &[&str]) -> (shares: Option<Shares>)
        requires
            self.wf(),
            doc@.len() <= i64::MAX,
        ensures
            shares is None <==> doc@.len() == 0,
            shares is Some ==> {
                &&& shares->0.length == doc@.len()
                &&& shares->0.counts@ == bow_of(tokens(doc@), self@)
                &&& shares->0.counts@.len() == self@.len()
                &&& total(shares->0.counts@) == known(tokens(doc@), self@)
            },
    {
        let length: usize = doc.len();
        if length == 0 {
            return None;
        }
        Some(Shares { counts: self.doc_to_bow(doc), length })
    }
}

} // verus!
