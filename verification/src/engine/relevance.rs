//! What the analyses share: how many terms two texts have in common, and
//! whether a text negates.

use vstd::prelude::*;
use crate::text::str_eq;
use crate::tokenizer::{terms_of, texts, words, words_of};

verus! {

/// The words whose presence in a text marks a negation, for the analysis of
/// beliefs.
pub open spec fn negation_words() -> Seq<Seq<char>> {
    seq![
        "not"@, "no"@, "never"@, "neither"@, "nor"@, "none"@, "nothing"@, "nowhere"@,
        "nobody"@, "cannot"@, "can't"@, "don't"@, "doesn't"@, "didn't"@, "won't"@,
        "wouldn't"@, "shouldn't"@, "couldn't"@, "isn't"@, "aren't"@, "wasn't"@, "weren't"@,
        "hasn't"@, "haven't"@, "hadn't"@, "false"@, "incorrect"@, "wrong"@, "invalid"@,
        "untrue"@, "deny"@, "denied"@, "disagree"@, "unlike"@, "opposite"@, "contrary"@,
        "instead"@, "rather"@,
    ]
}

/// The tokens that mark a negation, for consolidation.
pub open spec fn negation_tokens() -> Seq<Seq<char>> {
    seq![
        "not"@, "never"@, "no"@, "neither"@, "nor"@, "cannot"@, "can't"@, "won't"@,
        "doesn't"@, "don't"@, "didn't"@, "isn't"@, "aren't"@, "wasn't"@, "weren't"@,
        "shouldn't"@, "wouldn't"@, "couldn't"@, "hardly"@, "barely"@, "false"@, "incorrect"@,
        "wrong"@, "untrue"@, "impossible"@, "deny"@, "denied"@, "disagree"@, "unlike"@,
        "opposite"@,
    ]
}

/// Whether a text negates: one of its words, as they are written and in
/// lowercase, is one of the negation words.
pub open spec fn negates(content: Seq<char>) -> bool {
    shares_any(negation_words(), words(content))
}

/// Whether a text holds a negation token: one of its words, as they are
/// written and in lowercase, is one of the negation tokens.
pub open spec fn has_negation_token(content: Seq<char>) -> bool {
    shares_any(negation_tokens(), words(content))
}

/// How many members of `a` are members of `b`.
pub open spec fn shared(a: Seq<Seq<char>>, b: Seq<Seq<char>>) -> nat
    decreases a.len(),
{
    if a.len() == 0 {
        0
    } else {
        shared(a.drop_last(), b) + if b.contains(a.last()) { 1nat } else { 0nat }
    }
}

/// Whether a member of `a` is a member of `b`.
pub open spec fn shares_any(a: Seq<Seq<char>>, b: Seq<Seq<char>>) -> bool {
    exists|k: int| 0 <= k < a.len() && b.contains(#[trigger] a[k])
}

/// The texts of a list of string slices.
pub open spec fn slice_texts(v: Seq<&'static str>) -> Seq<Seq<char>> {
    Seq::new(v.len(), |i: int| v[i]@)
}

/// The negation words for the analysis of beliefs.
pub fn belief_negations() -> (r: Vec<&'static str>)
    ensures
        slice_texts(r@) == negation_words(),
{
    let r: Vec<&'static str> = vec![
        "not", "no", "never", "neither", "nor", "none", "nothing", "nowhere", "nobody", "cannot",
        "can't", "don't", "doesn't", "didn't", "won't", "wouldn't", "shouldn't", "couldn't",
        "isn't", "aren't", "wasn't", "weren't", "hasn't", "haven't", "hadn't", "false",
        "incorrect", "wrong", "invalid", "untrue", "deny", "denied", "disagree", "unlike",
        "opposite", "contrary", "instead", "rather",
    ];
    assert(slice_texts(r@) =~= negation_words());
    r
}

/// The negation tokens for consolidation.
pub fn consolidation_negations() -> (r: Vec<&'static str>)
    ensures
        slice_texts(r@) == negation_tokens(),
{
    let r: Vec<&'static str> = vec![
        "not", "never", "no", "neither", "nor", "cannot", "can't", "won't", "doesn't", "don't",
        "didn't", "isn't", "aren't", "wasn't", "weren't", "shouldn't", "wouldn't", "couldn't",
        "hardly", "barely", "false", "incorrect", "wrong", "untrue", "impossible", "deny",
        "denied", "disagree", "unlike", "opposite",
    ];
    assert(slice_texts(r@) =~= negation_tokens());
    r
}

/// Whether one of the words is a word of the text, as the text is written
/// and in lowercase.
pub fn has_word_of(list: &Vec<&'static str>, content: &str) -> (r: bool)
    ensures
        r == shares_any(slice_texts(list@), words(content@)),
{
    let written = words_of(content);
    has_any_of(list, &written)
}

/// Whether `term` is among `list`.
pub fn has_text(list: &Vec<String>, term: &str) -> (r: bool)
    ensures
        r == texts(list@).contains(term@),
{
    let mut i: usize = 0;
    while i < list.len()
        invariant
            i <= list@.len(),
            forall|j: int| 0 <= j < i ==> texts(list@)[j] != term@,
        decreases list@.len() - i,
    {
        if str_eq(list[i].as_str(), term) {
            assert(texts(list@)[i as int] == term@);
            return true;
        }
        i += 1;
    }
    false
}

/// Decides `shares_any` for a list of words.
pub fn has_any_of(words: &Vec<&'static str>, tokens: &Vec<String>) -> (r: bool)
    ensures
        r == shares_any(slice_texts(words@), texts(tokens@)),
{
    let mut k: usize = 0;
    while k < words.len()
        invariant
            k <= words@.len(),
            forall|l: int|
                0 <= l < k ==> !texts(tokens@).contains(#[trigger] slice_texts(words@)[l]),
        decreases words@.len() - k,
    {
        assert(slice_texts(words@)[k as int] == words@[k as int]@);
        if has_text(tokens, words[k]) {
            return true;
        }
        k += 1;
    }
    false
}

/// How many of the terms of a frequency table are among `tokens`.
pub fn count_shared(terms: &Vec<(String, u32)>, tokens: &Vec<String>) -> (r: usize)
    ensures
        r == shared(terms_of(terms@), texts(tokens@)),
{
    let mut n: usize = 0;
    let mut i: usize = 0;
    assert(terms_of(terms@).take(0) =~= Seq::<Seq<char>>::empty());
    while i < terms.len()
        invariant
            i <= terms@.len(),
            n <= i,
            n == shared(terms_of(terms@).take(i as int), texts(tokens@)),
        decreases terms@.len() - i,
    {
        assert(terms_of(terms@).take(i + 1).drop_last() =~= terms_of(terms@).take(i as int));
        assert(terms_of(terms@).take(i + 1).last() == terms@[i as int].0@);
        if has_text(tokens, terms[i].0.as_str()) {
            n += 1;
        }
        i += 1;
    }
    assert(terms_of(terms@).take(i as int) =~= terms_of(terms@));
    n
}

} // verus!
