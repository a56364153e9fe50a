//! The decisions taken when two documents are compared: which of their
//! words count, when the comparison fails or is settled at once, and which
//! cells of the cost grid hold a word distance.
//!
//! The embedding source and the solver are not part of this module. What the
//! source says of each token comes in as a value, and the distance of two
//! words as a function.

use vstd::prelude::*;
use crate::bow::{bow_of, Shares};
use crate::dictionary::{extended, joined, tokens, Dictionary};
use crate::dictionary::lemma_extended_dom;
use crate::matrix::{default_cell, Matrix};

verus! {

/// Why a comparison gives no number.
#[derive(Clone, Copy, Debug, PartialEq, Eq, Structural)]
pub enum CompareError {
    /// A document holds no token that the embedding source knows.
    EmptyVocabulary,
    /// A document holds no token at all.
    EmptyBow,
    /// A document holds no token with an embedding vector.
    EmptyDoc,
}

/// The tokens among the first `n` of `doc` for which the embedding source
/// gave an answer, in their order.
pub open spec fn known_prefix(doc: Seq<Seq<char>>, found: Seq<bool>, n: int) -> Seq<Seq<char>>
    decreases n,
{
    if n <= 0 {
        Seq::empty()
    } else if found[n - 1] {
        known_prefix(doc, found, n - 1).push(doc[n - 1])
    } else {
        known_prefix(doc, found, n - 1)
    }
}

/// The tokens of `doc` for which the embedding source gave an answer.
pub open spec fn known_words(doc: Seq<Seq<char>>, found: Seq<bool>) -> Seq<Seq<char>> {
    known_prefix(doc, found, doc.len() as int)
}

/// Which of the answers of the embedding source are an answer.
pub open spec fn answered(lookup: Seq<Option<i64>>) -> Seq<bool> {
    Seq::new(lookup.len(), |i: int| lookup[i] is Some)
}

/// The mapping of a document's vocabulary: its known words, each with the
/// number of known words that came before it.
pub open spec fn vocabulary(doc: Seq<Seq<char>>, found: Seq<bool>) -> Map<Seq<char>, int> {
    extended(Map::empty(), known_words(doc, found))
}

/// The known words of a document are those of its tokens for which the
/// embedding source gave an answer.
pub proof fn lemma_known_prefix(doc: Seq<Seq<char>>, found: Seq<bool>, n: int)
    requires
        0 <= n <= doc.len() == found.len(),
    ensures
        known_prefix(doc, found, n).len() <= n,
        forall|w: Seq<char>|
            known_prefix(doc, found, n).contains(w) <==> exists|i: int| 0 <= i < n && found[i] && #[trigger] doc[i] == w,
    decreases n,
{
    if n > 0 {
        lemma_known_prefix(doc, found, n - 1);
        let before = known_prefix(doc, found, n - 1);
        let now = known_prefix(doc, found, n);
        assert forall|w: Seq<char>| now.contains(w) <==> exists|i: int| 0 <= i < n && found[i] && #[trigger] doc[i] == w by {
            if now.contains(w) {
                let k = now.index_of(w);
                if found[n - 1] && k == before.len() {
                    assert(doc[n - 1] == w);
                } else {
                    assert(before[k] == w);
                    assert(before.contains(w));
                }
            }
            if exists|i: int| 0 <= i < n && found[i] && #[trigger] doc[i] == w {
                let i = choose|i: int| 0 <= i < n && found[i] && #[trigger] doc[i] == w;
                if i == n - 1 {
                    assert(now[before.len() as int] == w);
                } else {
                    assert(before.contains(w));
                    let k = before.index_of(w);
                    assert(now[k] == w);
                }
            }
        }
    }
}

/// The dictionary of the tokens of `doc` that the embedding source knows:
/// `lookup` holds, for each token, what the source gave for it.
pub fn dictionary(doc: &[&str], lookup: &[Option<i64>]) -> (dict: Dictionary)
    requires
        doc@.len() == lookup@.len(),
        doc@.len() <= i64::MAX,
    ensures
        dict.wf(),
        dict@ == vocabulary(tokens(doc@), answered(lookup@)),
        dict@.len() <= doc@.len(),
        forall|w: Seq<char>|
            dict@.contains_key(w) <==> exists|i: int| 0 <= i < doc@.len() && lookup@[i] is Some && #[trigger] doc@[i]@ == w,
{
    let ghost all = tokens(doc@);
    let ghost found = answered(lookup@);
    let n: usize = doc.len();
    let mut dict = Dictionary::default();
    let mut at: usize = 0;
    while at < n
        invariant
            at <= n == doc@.len() == lookup@.len(),
            n <= i64::MAX,
            all == tokens(doc@),
            found == answered(lookup@),
            dict.wf(),
            dict@.len() <= at,
            dict@ == extended(Map::empty(), known_prefix(all, found, at as int)),
        decreases n - at,
    {
        proof {
            dict.lemma_wf();
            let next = known_prefix(all, found, at + 1);
            if found[at as int] {
                assert(next.drop_last() =~= known_prefix(all, found, at as int));
            }
        }
        match lookup[at] {
            Some(_) => {
                dict.insert(doc[at]);
            },
            None => {},
        }
        at += 1;
    }
    proof {
        lemma_known_prefix(all, found, n as int);
        lemma_extended_dom(Map::empty(), known_words(all, found));
        assert forall|w: Seq<char>|
            dict@.contains_key(w) <==> exists|i: int| 0 <= i < doc@.len() && lookup@[i] is Some && #[trigger] doc@[i]@ == w by {
            if dict@.contains_key(w) {
                assert(known_words(all, found).contains(w));
                let i = choose|i: int| 0 <= i < n && found[i] && #[trigger] all[i] == w;
                assert(lookup@[i] is Some && doc@[i]@ == w);
            }
            if exists|i: int| 0 <= i < doc@.len() && lookup@[i] is Some && #[trigger] doc@[i]@ == w {
                let i = choose|i: int| 0 <= i < doc@.len() && lookup@[i] is Some && #[trigger] doc@[i]@ == w;
                assert(found[i] && all[i] == w);
                assert(known_words(all, found).contains(w));
            }
        }
    }
    dict
}

/// The embedding source gave no answer for any token.
pub open spec fn none_known(lookup: Seq<Option<i64>>) -> bool {
    forall|i: int| 0 <= i < lookup.len() ==> lookup[i] is None
}

/// What the solver is to be given for two documents.
#[derive(Debug)]
pub struct Plan {
    /// The vocabulary of both documents.
    pub dict: Dictionary,
    /// The vocabulary of the first document.
    pub dict1: Dictionary,
    /// The vocabulary of the second document.
    pub dict2: Dictionary,
    /// The first document's bag of words over the vocabulary of both.
    pub bow1: Shares,
    /// The second document's bag of words over the vocabulary of both.
    pub bow2: Shares,
}

/// How the distance of two documents is to be had.
#[derive(Debug)]
pub enum Distance {
    /// The vocabulary of both documents holds one word only: the distance
    /// is one.
    One,
    /// The solver decides.
    Solve(Plan),
}

impl Plan {
    /// The plan for the documents `doc1` and `doc2`, of whose tokens the
    /// embedding source knows those that `found1` and `found2` mark.
    pub open spec fn stands_for(
        &self,
        doc1: Seq<Seq<char>>,
        found1: Seq<bool>,
        doc2: Seq<Seq<char>>,
        found2: Seq<bool>,
    ) -> bool {
        &&& self.dict.wf()
        &&& self.dict1.wf()
        &&& self.dict2.wf()
        &&& self.dict1@ == vocabulary(doc1, found1)
        &&& self.dict2@ == vocabulary(doc2, found2)
        &&& self.dict@ == joined(self.dict1@, self.dict2@)
        &&& self.bow1.length == doc1.len()
        &&& self.bow1.counts@ == bow_of(doc1, self.dict@)
        &&& self.bow2.length == doc2.len()
        &&& self.bow2.counts@ == bow_of(doc2, self.dict@)
    }
}

/// Settles what can be settled of the distance of two documents before any
/// vector is looked at. `lookup1` and `lookup2` hold, for each token of
/// `doc1` and of `doc2`, what the embedding source gave for it.
pub fn wm_plan(doc1: &[&str], lookup1: &[Option<i64>], doc2: &[&str], lookup2: &[Option<i64>]) -> (plan: Result<
    Distance,
    CompareError,
>)
    requires
        doc1@.len() == lookup1@.len(),
        doc2@.len() == lookup2@.len(),
        doc1@.len() + doc2@.len() <= i64::MAX,
    ensures
        plan is Err <==> none_known(lookup1@) || none_known(lookup2@),
        plan is Err ==> plan->Err_0 == CompareError::EmptyVocabulary,
        plan is Ok ==> (plan->Ok_0 is One <==> joined(
            vocabulary(tokens(doc1@), answered(lookup1@)),
            vocabulary(tokens(doc2@), answered(lookup2@)),
        ).len() <= 1),
        plan is Ok && plan->Ok_0 is Solve ==> plan->Ok_0->Solve_0.stands_for(
            tokens(doc1@),
            answered(lookup1@),
            tokens(doc2@),
            answered(lookup2@),
        ),
{
    let dict1 = dictionary(doc1, lookup1);
    let dict2 = dictionary(doc2, lookup2);
    proof {
        lemma_empty_vocabulary(dict1, doc1@, lookup1@);
        lemma_empty_vocabulary(dict2, doc2@, lookup2@);
    }
    if dict1.is_empty() || dict2.is_empty() {
        return Err(CompareError::EmptyVocabulary);
    }
    let dict = dict1.join(&dict2);
    if dict.len() <= 1 {
        return Ok(Distance::One);
    }
    let bow1 = match dict.bow_normalized(doc1) {
        Some(bow) => bow,
        None => {
            return Err(CompareError::EmptyBow);
        },
    };
    let bow2 = match dict.bow_normalized(doc2) {
        Some(bow) => bow,
        None => {
            return Err(CompareError::EmptyBow);
        },
    };
    Ok(Distance::Solve(Plan { dict, dict1, dict2, bow1, bow2 }))
}

/// A vocabulary is empty just when the embedding source gave no answer for
/// any token.
proof fn lemma_empty_vocabulary(dict: Dictionary, doc: Seq<&str>, lookup: Seq<Option<i64>>)
    requires
        dict.wf(),
        doc.len() == lookup.len(),
        forall|w: Seq<char>|
            dict@.contains_key(w) <==> exists|i: int| 0 <= i < doc.len() && lookup[i] is Some && #[trigger] doc[i]@ == w,
    ensures
        dict@.len() == 0 <==> none_known(lookup),
{
    dict.lemma_wf();
    if dict@.len() == 0 {
        assert forall|i: int| 0 <= i < lookup.len() implies lookup[i] is None by {
            if lookup[i] is Some {
                assert(dict@.contains_key(doc[i]@));
            }
        }
    } else {
        let w = dict@.dom().choose();
        assert(dict@.contains_key(w));
    }
}

/// What the cell for the words `a` and `b` holds: what `distance` gave for
/// them, where `a` is a word of `m1` and `b` one of `m2` and it gave a
/// value; else a default cell.
pub open spec fn cell_of<T: Clone + Default, F: Fn(&str, &str) -> Option<T>>(
    a: Seq<char>,
    b: Seq<char>,
    m1: Map<Seq<char>, int>,
    m2: Map<Seq<char>, int>,
    distance: F,
    cell: T,
) -> bool {
    if m1.contains_key(a) && m2.contains_key(b) {
        exists|x: &str, y: &str, d: Option<T>|
            x@ == a && y@ == b && #[trigger] call_ensures(distance, (x, y), d) && match d {
                Some(v) => cell == v,
                None => default_cell(cell),
            }
    } else {
        default_cell(cell)
    }
}

/// The cost grid over the words of `dict` in ascending order: the cell of
/// row `i` and column `j` holds the distance of word `i` and word `j` where
/// word `i` is of `dict1` and word `j` of `dict2` and `distance` gives a
/// value for the two; every other cell keeps its default.
pub fn distance_matrix<T, F>(dict: &Dictionary, dict1: &Dictionary, dict2: &Dictionary, distance: F) -> (matrix:
    Matrix<T>) where T: Clone + Default, F: Fn(&str, &str) -> Option<T>
    requires
        dict.wf(),
        dict1.wf(),
        dict2.wf(),
        dict@.len() * dict@.len() <= usize::MAX,
        forall|a: &str, b: &str| call_requires(distance, (a, b)),
    ensures
        matrix.wf(),
        matrix@.len() == dict@.len(),
        forall|i: int, j: int|
            0 <= i < dict@.len() && 0 <= j < dict@.len() ==> cell_of(
                dict.keys()[i],
                dict.keys()[j],
                dict1@,
                dict2@,
                distance,
                #[trigger] matrix@[i][j],
            ),
{
    let words = dict.iter();
    let n: usize = words.len();
    let ghost keys = dict.keys();
    let mut matrix: Matrix<T> = Matrix::new(n);
    let mut i: usize = 0;
    while i < n
        invariant
            i <= n == keys.len(),
            keys == tokens(words@),
            dict1.wf(),
            dict2.wf(),
            matrix.wf(),
            matrix@.len() == n,
            forall|a: &str, b: &str| call_requires(distance, (a, b)),
            forall|r: int, c: int|
                0 <= r < i && 0 <= c < n ==> cell_of(keys[r], keys[c], dict1@, dict2@, distance, #[trigger] matrix@[r][c]),
            forall|r: int, c: int| i <= r < n && 0 <= c < n ==> default_cell(#[trigger] matrix@[r][c]),
        decreases n - i,
    {
        let in1 = dict1.contains(words[i]);
        let mut j: usize = 0;
        while j < n
            invariant
                i < n == keys.len(),
                j <= n,
                keys == tokens(words@),
                dict2.wf(),
                matrix.wf(),
                matrix@.len() == n,
                in1 == dict1@.contains_key(keys[i as int]),
                forall|a: &str, b: &str| call_requires(distance, (a, b)),
                forall|r: int, c: int|
                    0 <= r < i && 0 <= c < n ==> cell_of(keys[r], keys[c], dict1@, dict2@, distance, #[trigger] matrix@[r][c]),
                forall|c: int|
                    0 <= c < j ==> cell_of(keys[i as int], keys[c], dict1@, dict2@, distance, #[trigger] matrix@[i as int][c]),
                forall|c: int| j <= c < n ==> default_cell(#[trigger] matrix@[i as int][c]),
                forall|r: int, c: int| i < r < n && 0 <= c < n ==> default_cell(#[trigger] matrix@[r][c]),
            decreases n - j,
        {
            proof {
                matrix.lemma_square();
            }
            if in1 && dict2.contains(words[j]) {
                match distance(words[i], words[j]) {
                    Some(d) => {
                        matrix.set(i, j, d);
                        proof {
                            matrix.lemma_square();
                        }
                    },
                    None => {},
                }
            }
            j += 1;
        }
        i += 1;
    }
    matrix
}

/// The number by which the sum of a document's embedding vectors is divided
/// for their mean: the number of its tokens. `has_vector` says of each
/// token whether the embedding source holds a vector for it; a document
/// without any such token has no mean.
pub fn mean_length(has_vector: &[bool]) -> (length: Result<usize, CompareError>)
    ensures
        length is Ok <==> exists|i: int| 0 <= i < has_vector@.len() && has_vector@[i],
        length is Ok ==> length->Ok_0 == has_vector@.len(),
        length is Err ==> length->Err_0 == CompareError::EmptyDoc,
{
    let n: usize = has_vector.len();
    let mut at: usize = 0;
    while at < n
        invariant
            at <= n == has_vector@.len(),
            forall|i: int| 0 <= i < at ==> !has_vector@[i],
        decreases n - at,
    {
        if has_vector[at] {
            return Ok(n);
        }
        at += 1;
    }
    Err(CompareError::EmptyDoc)
}

impl CompareError {
    /// The failure in words.
    pub fn message(&self) -> (text: &'static str)
        ensures
            text@ == match *self {
                CompareError::EmptyVocabulary => "empty dictionary"@,
                CompareError::EmptyBow => "empty doc bow"@,
                CompareError::EmptyDoc => "empty doc"@,
            },
    {
        match self {
            CompareError::EmptyVocabulary => "empty dictionary",
            CompareError::EmptyBow => "empty doc bow",
            CompareError::EmptyDoc => "empty doc",
        }
    }
}

} // verus!
