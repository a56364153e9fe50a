//! A vocabulary: distinct words, each with an integer index of its own.
//!
//! The words are kept in ascending order. A word that is inserted gets the
//! number of words already present as its index, so the indices of `n` words
//! are always `n` distinct numbers below `n`; `reindex` hands them out anew
//! in the order of the words. A dictionary has one writer at a time.

use vstd::prelude::*;
use vstd::std_specs::cmp::PartialEqSpecImpl;
use crate::order::{ascending, compare_words, word_lt, WordOrder};
use crate::order::{lemma_word_lt_asymmetric, lemma_word_lt_total, lemma_word_lt_transitive};

verus! {

/// How many words of `words` come before `w`.
pub open spec fn rank(words: Set<Seq<char>>, w: Seq<char>) -> nat {
    words.filter(|v: Seq<char>| word_lt(v, w)).len()
}

/// The mapping that gives each word of `words` its position in their
/// ascending order.
pub open spec fn ranked(words: Set<Seq<char>>) -> Map<Seq<char>, int> {
    Map::new(|w: Seq<char>| words.contains(w), |w: Seq<char>| rank(words, w) as int)
}

/// The mapping of the words of both `a` and `b`, each at its position in
/// their ascending order.
pub open spec fn joined(a: Map<Seq<char>, int>, b: Map<Seq<char>, int>) -> Map<Seq<char>, int> {
    ranked(a.dom().union(b.dom()))
}

/// The mapping after `w` is inserted: unchanged where `w` is present, else
/// with `w` at the next free index.
pub open spec fn inserted(m: Map<Seq<char>, int>, w: Seq<char>) -> Map<Seq<char>, int> {
    if m.contains_key(w) {
        m
    } else {
        m.insert(w, m.len() as int)
    }
}

/// The mapping after the words of `ws` are inserted one after the other.
pub open spec fn extended(m: Map<Seq<char>, int>, ws: Seq<Seq<char>>) -> Map<Seq<char>, int>
    decreases ws.len(),
{
    if ws.len() == 0 {
        m
    } else {
        inserted(extended(m, ws.drop_last()), ws.last())
    }
}

/// The words that a slice of string slices holds.
pub open spec fn tokens(doc: Seq<&str>) -> Seq<Seq<char>> {
    Seq::new(doc.len(), |i: int| doc[i]@)
}

/// The words that a sequence of strings holds.
pub open spec fn texts(words: Seq<String>) -> Seq<Seq<char>> {
    Seq::new(words.len(), |i: int| words[i]@)
}

/// A set of words, each with an index. Its view is the mapping from the
/// words to their indices.
#[derive(Debug)]
pub struct Dictionary {
    words: Vec<String>,
    indices: Vec<i64>,
    index: i64,
}

impl View for Dictionary {
    type V = Map<Seq<char>, int>;

    /// The index of each word.
    closed spec fn view(&self) -> Map<Seq<char>, int> {
        Map::new(
            |w: Seq<char>| self.keys().contains(w),
            |w: Seq<char>| self.indices@[self.keys().index_of(w)] as int,
        )
    }
}

impl Dictionary {
    /// The words, in ascending order.
    pub closed spec fn keys(&self) -> Seq<Seq<char>> {
        texts(self.words@)
    }

    /// The counter: the index that the next new word gets.
    pub closed spec fn counter(&self) -> int {
        self.index as int
    }

    /// The words are in ascending order, the indices are distinct numbers
    /// below the number of words, and the counter stands at that number.
    pub closed spec fn wf(&self) -> bool {
        &&& self.words@.len() == self.indices@.len()
        &&& self.index == self.words@.len()
        &&& ascending(self.keys())
        &&& forall|i: int| 0 <= i < self.indices@.len() ==> 0 <= #[trigger] self.indices@[i] < self.index
        &&& forall|i: int, j: int|
            0 <= i < j < self.indices@.len() ==> #[trigger] self.indices@[i] != #[trigger] self.indices@[j]
    }

    /// What a well-formed dictionary's mapping is like: finitely many words,
    /// which are the keys, each with an index below their number that no
    /// other word has; the counter stands at their number.
    pub proof fn lemma_wf(&self)
        requires
            self.wf(),
        ensures
            self@.dom().finite(),
            self.counter() == self@.len(),
            self@.dom() == self.keys().to_set(),
            self@.len() == self.keys().len(),
            ascending(self.keys()),
            forall|i: int| 0 <= i < self.keys().len() ==> self@.contains_key(#[trigger] self.keys()[i]),
            forall|w: Seq<char>| self@.contains_key(w) ==> 0 <= #[trigger] self@[w] < self@.len(),
            forall|v: Seq<char>, w: Seq<char>|
                self@.contains_key(v) && self@.contains_key(w) && v != w ==> #[trigger] self@[v] != #[trigger] self@[w],
    {
        let keys = self.keys();
        lemma_ascending_distinct(keys);
        keys.unique_seq_to_set();
        assert(self@.dom() =~= keys.to_set());
        assert forall|w: Seq<char>| self@.contains_key(w) implies 0 <= #[trigger] self@[w] < self@.len() by {
            let i = keys.index_of(w);
            assert(0 <= self.indices@[i] < self.index);
        }
        assert forall|v: Seq<char>, w: Seq<char>|
            self@.contains_key(v) && self@.contains_key(w) && v != w implies #[trigger] self@[v] != #[trigger] self@[w] by {
            let i = keys.index_of(v);
            let j = keys.index_of(w);
            if i < j {
                assert(self.indices@[i] != self.indices@[j]);
            } else {
                assert(self.indices@[j] != self.indices@[i]);
            }
        }
    }

    /// In a dictionary whose words are numbered in ascending order, the word
    /// at position `i` has the index `i`.
    pub proof fn lemma_position(&self, i: int)
        requires
            self.wf(),
            self@ == ranked(self@.dom()),
            0 <= i < self.keys().len(),
        ensures
            self@.contains_key(self.keys()[i]),
            self@[self.keys()[i]] == i,
    {
        self.lemma_wf();
        lemma_rank_ascending(self.keys(), i);
    }

    /// The index that the mapping holds for the word at position `i`.
    proof fn lemma_key_index(&self, i: int)
        requires
            ascending(self.keys()),
            0 <= i < self.keys().len(),
        ensures
            self@.contains_key(self.keys()[i]),
            self@[self.keys()[i]] == self.indices@[i],
    {
        let keys = self.keys();
        lemma_ascending_distinct(keys);
        assert(keys.contains(keys[i]));
        let j = keys.index_of(keys[i]);
        assert(keys[j] == keys[i]);
    }
}

impl Default for Dictionary {
    /// The empty dictionary.
    fn default() -> (dict: Dictionary)
        ensures
            dict.wf(),
            dict@ == Map::<Seq<char>, int>::empty(),
    {
        let dict = Dictionary { words: Vec::new(), indices: Vec::new(), index: 0 };
        proof {
            assert(dict.keys() =~= Seq::<Seq<char>>::empty());
            assert(dict@ =~= Map::<Seq<char>, int>::empty());
        }
        dict
    }
}

impl Dictionary {
    /// Where `word` stands among the words, or where it would have to be put.
    fn locate(&self, word: &str) -> (r: (bool, usize))
        requires
            self.wf(),
        ensures
            r.1 <= self.keys().len(),
            r.0 ==> r.1 < self.keys().len() && self.keys()[r.1 as int] == word@,
            r.0 == self.keys().contains(word@),
            forall|i: int| 0 <= i < r.1 ==> word_lt(#[trigger] self.keys()[i], word@),
            forall|i: int| r.1 <= i < self.keys().len() && !(r.0 && i == r.1) ==> word_lt(word@, #[trigger] self.keys()[i]),
    {
        let ghost keys = self.keys();
        let mut lo: usize = 0;
        let mut hi: usize = self.words.len();
        while lo < hi
            invariant
                lo <= hi <= keys.len(),
                keys == self.keys(),
                keys.len() == self.words@.len(),
                ascending(keys),
                forall|i: int| 0 <= i < lo ==> word_lt(#[trigger] keys[i], word@),
                forall|i: int| hi <= i < keys.len() ==> word_lt(word@, #[trigger] keys[i]),
            decreases hi - lo,
        {
            let mid: usize = lo + (hi - lo) / 2;
            let here = self.words[mid].as_str();
            assert(here@ == keys[mid as int]);
            match compare_words(here, word) {
                WordOrder::Before => {
                    assert forall|i: int| 0 <= i < mid + 1 implies word_lt(#[trigger] keys[i], word@) by {
                        if i < mid {
                            lemma_word_lt_transitive(keys[i], keys[mid as int], word@);
                        }
                    }
                    lo = mid + 1;
                },
                WordOrder::After => {
                    assert forall|i: int| mid <= i < keys.len() implies word_lt(word@, #[trigger] keys[i]) by {
                        if mid < i {
                            lemma_word_lt_transitive(word@, keys[mid as int], keys[i]);
                        }
                    }
                    hi = mid;
                },
                WordOrder::Same => {
                    assert forall|i: int| 0 <= i < mid implies word_lt(#[trigger] keys[i], word@) by {}
                    assert forall|i: int| mid < i < keys.len() implies word_lt(word@, #[trigger] keys[i]) by {}
                    return (true, mid);
                },
            }
        }
        proof {
            if keys.contains(word@) {
                let i = keys.index_of(word@);
                if i < lo {
                    lemma_word_lt_asymmetric(keys[i], word@);
                } else {
                    lemma_word_lt_asymmetric(word@, keys[i]);
                }
            }
        }
        (false, lo)
    }

    /// Whether `word` is in the dictionary.
    pub fn contains(&self, word: &str) -> (found: bool)
        requires
            self.wf(),
        ensures
            found == self@.contains_key(word@),
    {
        self.locate(word).0
    }

    /// The index of `word`, where it is in the dictionary.
    pub fn word_index(&self, word: &str) -> (index: Option<i64>)
        requires
            self.wf(),
        ensures
            index is Some <==> self@.contains_key(word@),
            index is Some ==> index->0 == self@[word@],
    {
        let (found, at) = self.locate(word);
        if found {
            proof {
                self.lemma_key_index(at as int);
            }
            Some(self.indices[at])
        } else {
            None
        }
    }

    /// The number of words.
    pub fn len(&self) -> (n: usize)
        requires
            self.wf(),
        ensures
            n == self@.len(),
    {
        proof {
            self.lemma_wf();
        }
        self.words.len()
    }

    /// Whether the dictionary holds no word.
    pub fn is_empty(&self) -> (empty: bool)
        requires
            self.wf(),
        ensures
            empty == (self@.len() == 0),
    {
        self.len() == 0
    }

    /// Hands out the counter's value and moves the counter on.
    fn index_inc(&mut self) -> (index: i64)
        requires
            old(self).index < i64::MAX,
        ensures
            index == old(self).index,
            final(self).index == old(self).index + 1,
            final(self).words == old(self).words,
            final(self).indices == old(self).indices,
    {
        let index = self.index;
        self.index = index + 1;
        index
    }

    /// Adds `word` with the next free index; a word that is present stays
    /// as it is.
    pub fn insert(&mut self, word: &str)
        requires
            old(self).wf(),
            old(self)@.len() < i64::MAX,
        ensures
            final(self).wf(),
            final(self)@ == inserted(old(self)@, word@),
    {
        proof {
            self.lemma_wf();
        }
        let (found, at) = self.locate(word);
        if !found {
            let index = self.index_inc();
            self.words.insert(at, word.to_owned());
            self.indices.insert(at, index);
            proof {
                assert(self.keys() =~= old(self).keys().insert(at as int, word@));
                lemma_insert_key(*old(self), *self, at as int, word@);
            }
        }
    }
}

impl Dictionary {
    /// Hands the indices out anew: each word gets its position in the
    /// ascending order of the words.
    pub fn reindex(&mut self)
        requires
            old(self).wf(),
        ensures
            final(self).wf(),
            final(self)@ == ranked(old(self)@.dom()),
    {
        proof {
            self.lemma_wf();
        }
        self.index = 0;
        let n: usize = self.indices.len();
        let mut at: usize = 0;
        let mut index: i64 = 0;
        while at < n
            invariant
                at <= n <= i64::MAX,
                index == at,
                self.words == old(self).words,
                self.indices@.len() == n,
                forall|i: int| 0 <= i < at ==> #[trigger] self.indices@[i] == i,
            decreases n - at,
        {
            self.indices[at] = index;
            index += 1;
            at += 1;
        }
        self.index = index;
        proof {
            let keys = self.keys();
            assert(keys == old(self).keys());
            assert(self.wf());
            self.lemma_wf();
            assert forall|w: Seq<char>| self@.contains_key(w) implies #[trigger] self@[w] == ranked(old(self)@.dom())[w] by {
                let i = keys.index_of(w);
                self.lemma_key_index(i);
                lemma_rank_ascending(keys, i);
            }
            assert(self@ =~= ranked(old(self)@.dom()));
        }
    }

    /// Inserts the words of `words` one after the other.
    pub fn extend(&mut self, words: &[&str])
        requires
            old(self).wf(),
            old(self)@.len() + words@.len() <= i64::MAX,
        ensures
            final(self).wf(),
            final(self)@ == extended(old(self)@, tokens(words@)),
    {
        let ghost all = tokens(words@);
        let n: usize = words.len();
        let mut at: usize = 0;
        proof {
            self.lemma_wf();
            assert(all.take(0) =~= Seq::<Seq<char>>::empty());
        }
        while at < n
            invariant
                at <= n == words@.len(),
                all == tokens(words@),
                self.wf(),
                self@.len() <= old(self)@.len() + at,
                old(self)@.len() + n <= i64::MAX,
                self@ == extended(old(self)@, all.take(at as int)),
            decreases n - at,
        {
            proof {
                self.lemma_wf();
                let next = all.take(at + 1);
                assert(next.drop_last() =~= all.take(at as int));
                assert(next.last() == words@[at as int]@);
            }
            self.insert(words[at]);
            at += 1;
        }
        proof {
            assert(all.take(n as int) =~= all);
        }
    }

    /// The dictionary of the words of `words`, each at its position in their
    /// ascending order.
    pub fn with_extend(words: &[&str]) -> (dict: Dictionary)
        requires
            words@.len() <= i64::MAX,
        ensures
            dict.wf(),
            dict@ == ranked(tokens(words@).to_set()),
    {
        let mut dict = Dictionary::default();
        dict.extend(words);
        dict.reindex();
        proof {
            lemma_extended_dom(Map::empty(), tokens(words@));
            assert(Set::<Seq<char>>::empty().union(tokens(words@).to_set()) =~= tokens(words@).to_set());
        }
        dict
    }

    /// The words in ascending order.
    pub fn iter(&self) -> (words: Vec<&str>)
        requires
            self.wf(),
        ensures
            tokens(words@) == self.keys(),
            words@.len() == self@.len(),
            ascending(tokens(words@)),
            tokens(words@).to_set() == self@.dom(),
    {
        let n: usize = self.words.len();
        let mut words: Vec<&str> = Vec::new();
        let mut at: usize = 0;
        while at < n
            invariant
                at <= n == self.words@.len(),
                words@.len() == at,
                forall|i: int| 0 <= i < at ==> (#[trigger] words@[i])@ == self.words@[i]@,
            decreases n - at,
        {
            words.push(self.words[at].as_str());
            at += 1;
        }
        proof {
            self.lemma_wf();
            assert(tokens(words@) =~= self.keys());
        }
        words
    }

    /// The dictionary of the words of both, each at its position in their
    /// ascending order. Neither dictionary changes.
    pub fn join(&self, other: &Dictionary) -> (dict: Dictionary)
        requires
            self.wf(),
            other.wf(),
            self@.len() + other@.len() <= i64::MAX,
        ensures
            dict.wf(),
            dict@ == joined(self@, other@),
    {
        let mine = self.iter();
        let theirs = other.iter();
        let mut dict = Dictionary::with_extend(mine.as_slice());
        proof {
            self.lemma_wf();
            other.lemma_wf();
            dict.lemma_wf();
            assert(dict@.dom() =~= self@.dom());
        }
        dict.extend(theirs.as_slice());
        dict.reindex();
        proof {
            lemma_extended_dom(ranked(self@.dom()), tokens(theirs@));
        }
        dict
    }

    /// The words in ascending order, and the index of each.
    pub closed spec fn entries(&self) -> (Seq<Seq<char>>, Seq<i64>) {
        (self.keys(), self.indices@)
    }

    /// Two well-formed dictionaries hold the same entries just when their
    /// mappings are the same.
    pub proof fn lemma_entries(&self, other: &Dictionary)
        requires
            self.wf(),
            other.wf(),
        ensures
            self.entries() == other.entries() <==> self@ == other@,
    {
        let a = self.keys();
        let b = other.keys();
        self.lemma_wf();
        other.lemma_wf();
        if self.entries() == other.entries() {
            assert(self@ =~= other@);
        }
        if self@ == other@ {
            lemma_ascending_unique(a, b);
            assert forall|i: int| 0 <= i < a.len() implies self.indices@[i] == other.indices@[i] by {
                self.lemma_key_index(i);
                other.lemma_key_index(i);
            }
            assert(self.indices@ =~= other.indices@);
        }
    }
}

impl PartialEq for Dictionary {
    /// Whether both hold the same words with the same indices.
    fn eq(&self, other: &Dictionary) -> (equal: bool) {
        let n: usize = self.words.len();
        let m: usize = self.indices.len();
        if n != other.words.len() || m != other.indices.len() {
            assert(self.keys().len() != other.keys().len() || self.indices@.len() != other.indices@.len());
            return false;
        }
        let mut at: usize = 0;
        while at < n
            invariant
                at <= n == self.words@.len() == other.words@.len(),
                forall|i: int| 0 <= i < at ==> #[trigger] self.keys()[i] == other.keys()[i],
            decreases n - at,
        {
            if self.words[at] != other.words[at] {
                assert(self.keys()[at as int] != other.keys()[at as int]);
                return false;
            }
            at += 1;
        }
        assert(self.keys() =~= other.keys());
        at = 0;
        while at < m
            invariant
                at <= m == self.indices@.len() == other.indices@.len(),
                self.keys() == other.keys(),
                forall|i: int| 0 <= i < at ==> #[trigger] self.indices@[i] == other.indices@[i],
            decreases m - at,
        {
            if self.indices[at] != other.indices[at] {
                return false;
            }
            at += 1;
        }
        assert(self.indices@ =~= other.indices@);
        true
    }
}

impl PartialEqSpecImpl for Dictionary {
    open spec fn obeys_eq_spec() -> bool {
        true
    }

    open spec fn eq_spec(&self, other: &Dictionary) -> bool {
        self.entries() == other.entries()
    }
}

/// The position of a word among words in ascending order is the number of
/// them that come before it.
pub proof fn lemma_rank_ascending(words: Seq<Seq<char>>, i: int)
    requires
        ascending(words),
        0 <= i < words.len(),
    ensures
        rank(words.to_set(), words[i]) == i,
{
    let w = words[i];
    let head = words.subrange(0, i);
    assert forall|v: Seq<char>| words.to_set().filter(|v: Seq<char>| word_lt(v, w)).contains(v) <==> head.to_set().contains(v) by {
        if words.to_set().contains(v) && word_lt(v, w) {
            let j = words.index_of(v);
            if j > i {
                lemma_word_lt_asymmetric(w, v);
            }
            assert(head[j] == v);
        }
        if head.to_set().contains(v) {
            let j = head.index_of(v);
            assert(words[j] == v);
        }
    }
    assert(words.to_set().filter(|v: Seq<char>| word_lt(v, w)) =~= head.to_set());
    lemma_ascending_distinct(head);
    head.unique_seq_to_set();
}

/// There is one way only to put a set of words in ascending order.
pub proof fn lemma_ascending_unique(a: Seq<Seq<char>>, b: Seq<Seq<char>>)
    requires
        ascending(a),
        ascending(b),
        a.to_set() == b.to_set(),
    ensures
        a == b,
{
    lemma_ascending_distinct(a);
    lemma_ascending_distinct(b);
    a.unique_seq_to_set();
    b.unique_seq_to_set();
    assert forall|i: int| 0 <= i < a.len() implies a[i] == b[i] by {
        assert(a.to_set().contains(a[i]));
        let j = b.index_of(a[i]);
        lemma_rank_ascending(a, i);
        lemma_rank_ascending(b, j);
    }
    assert(a =~= b);
}

/// Inserting words adds just these words to those that are present.
pub proof fn lemma_extended_dom(m: Map<Seq<char>, int>, ws: Seq<Seq<char>>)
    requires
        m.dom().finite(),
    ensures
        extended(m, ws).dom().finite(),
        extended(m, ws).dom() == m.dom().union(ws.to_set()),
    decreases ws.len(),
{
    if ws.len() == 0 {
        assert(m.dom().union(ws.to_set()) =~= m.dom());
    } else {
        lemma_extended_dom(m, ws.drop_last());
        let before = extended(m, ws.drop_last());
        assert forall|v: Seq<char>| m.dom().union(ws.to_set()).contains(v) <==> before.dom().insert(ws.last()).contains(v) by {
            if ws.to_set().contains(v) {
                let i = ws.index_of(v);
                if i < ws.len() - 1 {
                    assert(ws.drop_last()[i] == v);
                }
            }
            if ws.drop_last().to_set().contains(v) {
                let i = ws.drop_last().index_of(v);
                assert(ws[i] == v);
            }
            assert(ws[ws.len() - 1] == ws.last());
        }
        assert(extended(m, ws).dom() =~= m.dom().union(ws.to_set()));
    }
}

/// The ranks of the words of a finite set are numbers below their number,
/// and they order the words as the words are ordered: the ranks of `n`
/// words are the numbers from 0 to `n - 1`, handed out in ascending order.
pub proof fn lemma_ranked_order(words: Set<Seq<char>>)
    requires
        words.finite(),
    ensures
        ranked(words).dom() == words,
        forall|w: Seq<char>| words.contains(w) ==> 0 <= #[trigger] ranked(words)[w] < words.len(),
        forall|v: Seq<char>, w: Seq<char>|
            words.contains(v) && words.contains(w) ==> (word_lt(v, w) <==> #[trigger] ranked(words)[v] < #[trigger] ranked(
                words,
            )[w]),
{
    assert(ranked(words).dom() =~= words);
    assert forall|w: Seq<char>| words.contains(w) implies 0 <= #[trigger] ranked(words)[w] < words.len() by {
        let below = words.filter(|v: Seq<char>| word_lt(v, w));
        vstd::set_lib::lemma_len_subset(below, words.remove(w));
    }
    assert forall|v: Seq<char>, w: Seq<char>| words.contains(v) && words.contains(w) && word_lt(v, w) implies rank(
        words,
        v,
    ) < rank(words, w) by {
        lemma_rank_increases(words, v, w);
    }
    assert forall|v: Seq<char>, w: Seq<char>|
        words.contains(v) && words.contains(w) && #[trigger] ranked(words)[v] < #[trigger] ranked(words)[w] implies word_lt(
        v,
        w,
    ) by {
        lemma_word_lt_total(v, w);
        if word_lt(w, v) {
            lemma_rank_increases(words, w, v);
        }
    }
}

/// Of two words of a finite set, the one that comes first has the smaller
/// rank.
proof fn lemma_rank_increases(words: Set<Seq<char>>, v: Seq<char>, w: Seq<char>)
    requires
        words.finite(),
        words.contains(v),
        word_lt(v, w),
    ensures
        rank(words, v) < rank(words, w),
{
    let below_v = words.filter(|u: Seq<char>| word_lt(u, v));
    let below_w = words.filter(|u: Seq<char>| word_lt(u, w));
    assert forall|u: Seq<char>| below_v.contains(u) implies below_w.remove(v).contains(u) by {
        lemma_word_lt_transitive(u, v, w);
        lemma_word_lt_asymmetric(u, v);
    }
    vstd::set_lib::lemma_len_subset(below_w, words);
    vstd::set_lib::lemma_len_subset(below_v, below_w.remove(v));
}

/// Joining two dictionaries gives the same mapping whichever of them comes
/// first.
pub proof fn lemma_join_commutative(a: Dictionary, b: Dictionary)
    requires
        a.wf(),
        b.wf(),
    ensures
        joined(a@, b@) == joined(b@, a@),
{
    assert(a@.dom().union(b@.dom()) =~= b@.dom().union(a@.dom()));
}

/// A word that is inserted twice is inserted once: the second time changes
/// neither the mapping nor the number of words.
pub proof fn lemma_insert_idempotent(dict: Dictionary, w: Seq<char>)
    requires
        dict.wf(),
    ensures
        inserted(inserted(dict@, w), w) == inserted(dict@, w),
        inserted(inserted(dict@, w), w).len() == inserted(dict@, w).len(),
{
}

/// Inserting words leaves every word that is present at its index.
pub proof fn lemma_extended_keeps(m: Map<Seq<char>, int>, ws: Seq<Seq<char>>, w: Seq<char>)
    requires
        m.contains_key(w),
    ensures
        extended(m, ws).contains_key(w),
        extended(m, ws)[w] == m[w],
    decreases ws.len(),
{
    if ws.len() > 0 {
        lemma_extended_keeps(m, ws.drop_last(), w);
    }
}

/// A word put in at its place with the next free index: the dictionary stays
/// well-formed and its mapping gains that word.
proof fn lemma_insert_key(before: Dictionary, after: Dictionary, at: int, w: Seq<char>)
    requires
        before.wf(),
        0 <= at <= before.keys().len(),
        !before.keys().contains(w),
        forall|i: int| 0 <= i < at ==> word_lt(#[trigger] before.keys()[i], w),
        forall|i: int| at <= i < before.keys().len() ==> word_lt(w, #[trigger] before.keys()[i]),
        after.keys() == before.keys().insert(at, w),
        after.indices@ == before.indices@.insert(at, before.index),
        after.index == before.index + 1,
        after.words@.len() == before.words@.len() + 1,
    ensures
        after.wf(),
        after@ == before@.insert(w, before@.len() as int),
{
    let old_keys = before.keys();
    let new_keys = after.keys();
    before.lemma_wf();
    assert forall|i: int, j: int| 0 <= i < j < new_keys.len() implies word_lt(#[trigger] new_keys[i], #[trigger] new_keys[j]) by {
        if j < at {
            assert(new_keys[i] == old_keys[i] && new_keys[j] == old_keys[j]);
        } else if j == at {
            assert(new_keys[i] == old_keys[i]);
        } else if i < at {
            assert(new_keys[i] == old_keys[i] && new_keys[j] == old_keys[j - 1]);
            if i == j - 1 {
            }
        } else if i == at {
            assert(new_keys[j] == old_keys[j - 1]);
        } else {
            assert(new_keys[i] == old_keys[i - 1] && new_keys[j] == old_keys[j - 1]);
        }
    }
    assert(after.wf());
    assert forall|v: Seq<char>| after@.contains_key(v) <==> before@.insert(w, before@.len() as int).contains_key(v) by {
        if after@.contains_key(v) {
            let i = new_keys.index_of(v);
            if i < at {
                assert(old_keys[i] == v);
            } else if i > at {
                assert(old_keys[i - 1] == v);
            }
        }
        if before@.contains_key(v) {
            let i = old_keys.index_of(v);
            if i < at {
                assert(new_keys[i] == v);
            } else {
                assert(new_keys[i + 1] == v);
            }
        }
        if v == w {
            assert(new_keys[at] == v);
        }
    }
    assert forall|v: Seq<char>| after@.contains_key(v) implies #[trigger] after@[v] == before@.insert(w, before@.len() as int)[v] by {
        let i = new_keys.index_of(v);
        after.lemma_key_index(i);
        if i < at {
            before.lemma_key_index(i);
        } else if i > at {
            before.lemma_key_index(i - 1);
        }
    }
    assert(after@ =~= before@.insert(w, before@.len() as int));
}

/// Words in ascending order are all different.
pub proof fn lemma_ascending_distinct(words: Seq<Seq<char>>)
    requires
        ascending(words),
    ensures
        words.no_duplicates(),
{
    assert forall|i: int, j: int| 0 <= i < words.len() && 0 <= j < words.len() && i != j implies words[i] != words[j] by {
        if i < j {
            lemma_word_lt_asymmetric(words[i], words[j]);
        } else {
            lemma_word_lt_asymmetric(words[j], words[i]);
        }
    }
}

} // verus!
