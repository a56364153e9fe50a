//! Splitting a text into its words.

use vstd::prelude::*;
use vstd::string::StrSliceExecFns;
use crate::dictionary::tokens;

verus! {

/// The characters that separate words: those with the Unicode property
/// `White_Space`.
pub open spec fn white_space(c: char) -> bool {
    let v = c as u32;
    ||| 0x09 <= v <= 0x0d
    ||| v == 0x20
    ||| v == 0x85
    ||| v == 0xa0
    ||| v == 0x1680
    ||| 0x2000 <= v <= 0x200a
    ||| v == 0x2028
    ||| v == 0x2029
    ||| v == 0x202f
    ||| v == 0x205f
    ||| v == 0x3000
}

/// The words of a text: its longest runs of characters that are no white
/// space, from the first to the last.
pub open spec fn words_of(text: Seq<char>) -> Seq<Seq<char>>
    decreases text.len(),
{
    if text.len() == 0 {
        Seq::empty()
    } else {
        let head = text.drop_last();
        let c = text.last();
        if white_space(c) {
            words_of(head)
        } else if head.len() > 0 && !white_space(head.last()) {
            words_of(head).drop_last().push(words_of(head).last().push(c))
        } else {
            words_of(head).push(seq![c])
        }
    }
}

/// No word of a text is empty, and none holds white space.
pub proof fn lemma_words_of(text: Seq<char>)
    ensures
        forall|k: int| 0 <= k < words_of(text).len() ==> (#[trigger] words_of(text)[k]).len() > 0,
        forall|k: int, i: int|
            0 <= k < words_of(text).len() && 0 <= i < words_of(text)[k].len() ==> !white_space(
                #[trigger] words_of(text)[k][i],
            ),
        text.len() > 0 && !white_space(text.last()) ==> words_of(text).len() > 0,
    decreases text.len(),
{
    if text.len() > 0 {
        let head = text.drop_last();
        let c = text.last();
        let before = words_of(head);
        let now = words_of(text);
        lemma_words_of(head);
        if !white_space(c) {
            let last = now.len() - 1;
            assert forall|k: int| 0 <= k < now.len() implies (#[trigger] now[k]).len() > 0 && forall|i: int|
                0 <= i < now[k].len() ==> !white_space(#[trigger] now[k][i]) by {
                if k < last {
                    assert(now[k] == before[k]);
                } else if head.len() > 0 && !white_space(head.last()) {
                    assert(now[k] == before.last().push(c));
                    assert forall|i: int| 0 <= i < now[k].len() implies !white_space(#[trigger] now[k][i]) by {
                        if i < before.last().len() {
                            assert(now[k][i] == before[before.len() - 1][i]);
                        }
                    }
                } else {
                    assert(now[k] == seq![c]);
                }
            }
        }
    }
}

/// Whether `c` separates words.
pub fn is_white_space(c: char) -> (white: bool)
    ensures
        white == white_space(c),
{
    let v: u32 = c as u32;
    (0x09 <= v && v <= 0x0d) || v == 0x20 || v == 0x85 || v == 0xa0 || v == 0x1680 || (0x2000 <= v && v <= 0x200a)
        || v == 0x2028 || v == 0x2029 || v == 0x202f || v == 0x205f || v == 0x3000
}

/// The words of `doc`, in the order in which they stand in it.
pub fn doc_parse<'a>(doc: &'a str) -> (words: Vec<&'a str>)
    ensures
        tokens(words@) == words_of(doc@),
{
    let ghost text = doc@;
    let n: usize = doc.unicode_len();
    let mut words: Vec<&'a str> = Vec::new();
    let mut start: usize = 0;
    let mut inside: bool = false;
    let mut at: usize = 0;
    proof {
        assert(text.take(0) =~= Seq::<char>::empty());
        assert(tokens(words@) =~= words_of(text.take(0)));
    }
    while at < n
        invariant
            at <= n == text.len(),
            text == doc@,
            inside ==> start < at && !white_space(text[at - 1]) && words_of(text.take(at as int))
                == tokens(words@).push(text.subrange(start as int, at as int)),
            !inside ==> (at == 0 || white_space(text[at - 1])) && words_of(text.take(at as int))
                == tokens(words@),
        decreases n - at,
    {
        let c = doc.get_char(at);
        let ghost done = tokens(words@);
        proof {
            let next = text.take(at + 1);
            assert(next.drop_last() =~= text.take(at as int));
            assert(next.last() == c);
            if at > 0 {
                assert(text.take(at as int).last() == text[at - 1]);
            }
        }
        if is_white_space(c) {
            if inside {
                words.push(doc.substring_char(start, at));
                inside = false;
                assert(tokens(words@) =~= done.push(text.subrange(start as int, at as int)));
            }
        } else if inside {
            proof {
                let run = text.subrange(start as int, at as int);
                assert(done.push(run).drop_last() =~= done);
                assert(run.push(c) =~= text.subrange(start as int, at + 1));
            }
        } else {
            start = at;
            inside = true;
            assert(seq![c] =~= text.subrange(at as int, at + 1));
        }
        at += 1;
    }
    if inside {
        let ghost done = tokens(words@);
        words.push(doc.substring_char(start, n));
        assert(tokens(words@) =~= done.push(text.subrange(start as int, n as int)));
    }
    proof {
        assert(text.take(n as int) =~= text);
    }
    words
}

} // verus!
