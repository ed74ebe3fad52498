//! The tokenizer shared by every text operation.
//!
//! A text is lowercased and cut at every character that is not alphanumeric.
//! Of the pieces, those shorter than two characters and those on the
//! stop-word list are dropped; the rest are the tokens, in order.

use vstd::prelude::*;
use crate::text::{alphanumeric, is_alphanumeric, lowercase, lowercase_chars, str_eq,
    string_from_chars};

verus! {

/// The function words that never become tokens.
pub open spec fn stop_words() -> Seq<Seq<char>> {
    seq![
        "the"@, "a"@, "an"@, "is"@, "are"@, "was"@, "were"@, "be"@, "been"@, "being"@,
        "have"@, "has"@, "had"@, "do"@, "does"@, "did"@, "will"@, "would"@, "could"@,
        "should"@, "may"@, "might"@, "shall"@, "can"@, "need"@, "must"@, "to"@, "of"@,
        "in"@, "for"@, "on"@, "with"@, "at"@, "by"@, "from"@, "as"@, "into"@, "about"@,
        "but"@, "not"@, "or"@, "and"@, "if"@, "it"@, "its"@, "this"@, "that"@, "which"@,
        "who"@, "what"@, "when"@, "where"@, "how"@, "all"@, "each"@, "both"@, "few"@,
        "more"@, "most"@, "other"@, "some"@, "such"@, "no"@, "than"@, "too"@, "very"@,
        "just"@, "also"@,
    ]
}

/// Whether a piece becomes a token: it has two characters or more and is
/// no stop word.
pub open spec fn is_token(piece: Seq<char>) -> bool {
    piece.len() >= 2 && !stop_words().contains(piece)
}

/// The piece that is still open at the end of `s`: its longest suffix of
/// characters that belong to words, where `word` says of each character of
/// the text whether it does.
pub open spec fn open_piece(s: Seq<char>, word: Seq<bool>) -> Seq<char>
    decreases s.len(),
{
    if s.len() == 0 {
        Seq::empty()
    } else if word[s.len() - 1] {
        open_piece(s.drop_last(), word).push(s.last())
    } else {
        Seq::empty()
    }
}

/// The tokens among the pieces of `s` that a separator has closed.
pub open spec fn closed_tokens(s: Seq<char>, word: Seq<bool>) -> Seq<Seq<char>>
    decreases s.len(),
{
    if s.len() == 0 {
        Seq::empty()
    } else if word[s.len() - 1] {
        closed_tokens(s.drop_last(), word)
    } else if is_token(open_piece(s.drop_last(), word)) {
        closed_tokens(s.drop_last(), word).push(open_piece(s.drop_last(), word))
    } else {
        closed_tokens(s.drop_last(), word)
    }
}

/// The tokens of a text whose characters are classified by `word`: its
/// maximal runs of characters that belong to words, without those that
/// are too short or stop words, in order.
pub open spec fn pieces(s: Seq<char>, word: Seq<bool>) -> Seq<Seq<char>> {
    if is_token(open_piece(s, word)) {
        closed_tokens(s, word).push(open_piece(s, word))
    } else {
        closed_tokens(s, word)
    }
}

/// The words among the pieces of `s` that a separator has closed: every
/// piece that is not empty.
pub open spec fn closed_words(s: Seq<char>, word: Seq<bool>) -> Seq<Seq<char>>
    decreases s.len(),
{
    if s.len() == 0 {
        Seq::empty()
    } else if word[s.len() - 1] {
        closed_words(s.drop_last(), word)
    } else if open_piece(s.drop_last(), word).len() > 0 {
        closed_words(s.drop_last(), word).push(open_piece(s.drop_last(), word))
    } else {
        closed_words(s.drop_last(), word)
    }
}

/// The words of a text whose characters are classified by `word`: all its
/// maximal runs of characters that belong to words, in order.
pub open spec fn runs(s: Seq<char>, word: Seq<bool>) -> Seq<Seq<char>> {
    if open_piece(s, word).len() > 0 {
        closed_words(s, word).push(open_piece(s, word))
    } else {
        closed_words(s, word)
    }
}

/// Of each character of a text, whether it belongs to a word as it is
/// written: it is alphanumeric or an apostrophe.
pub open spec fn word_classes(s: Seq<char>) -> Seq<bool> {
    Seq::new(s.len(), |i: int| alphanumeric(s[i]) || s[i] == '\'')
}

/// The words of a text as they are written, in lowercase and in order:
/// nothing is dropped, and an apostrophe belongs to its word.
pub open spec fn words(text: Seq<char>) -> Seq<Seq<char>> {
    runs(lowercase(text), word_classes(lowercase(text)))
}

/// Of each character of a text, whether it is alphanumeric.
pub open spec fn classes(s: Seq<char>) -> Seq<bool> {
    Seq::new(s.len(), |i: int| alphanumeric(s[i]))
}

/// The tokens of an already lowercased text.
pub open spec fn tokens_of_lowercased(s: Seq<char>) -> Seq<Seq<char>> {
    pieces(s, classes(s))
}

/// The tokens of a text.
pub open spec fn tokens(text: Seq<char>) -> Seq<Seq<char>> {
    tokens_of_lowercased(lowercase(text))
}

/// The texts of a sequence of strings.
pub open spec fn texts(v: Seq<String>) -> Seq<Seq<char>> {
    Seq::new(v.len(), |i: int| v[i]@)
}

/// How often `t` occurs in `s`.
pub open spec fn occurrences(s: Seq<Seq<char>>, t: Seq<char>) -> nat
    decreases s.len(),
{
    if s.len() == 0 {
        0
    } else {
        occurrences(s.drop_last(), t) + if s.last() == t { 1nat } else { 0nat }
    }
}

/// The distinct members of `s`, each at the place of its first occurrence.
pub open spec fn distinct(s: Seq<Seq<char>>) -> Seq<Seq<char>>
    decreases s.len(),
{
    if s.len() == 0 {
        Seq::empty()
    } else if distinct(s.drop_last()).contains(s.last()) {
        distinct(s.drop_last())
    } else {
        distinct(s.drop_last()).push(s.last())
    }
}

/// The terms of a frequency table.
pub open spec fn terms_of(freqs: Seq<(String, u32)>) -> Seq<Seq<char>> {
    Seq::new(freqs.len(), |i: int| freqs[i].0@)
}

/// A count as a table holds it: capped at the largest `u32`.
pub open spec fn capped(n: nat) -> u32 {
    if n >= u32::MAX {
        u32::MAX
    } else {
        n as u32
    }
}

/// Whether `freqs` is the frequency table of `toks`: one entry per distinct
/// token, in order of first occurrence, with the number of its occurrences.
pub open spec fn is_frequency_table(freqs: Seq<(String, u32)>, toks: Seq<Seq<char>>) -> bool {
    &&& terms_of(freqs) == distinct(toks)
    &&& forall|i: int|
        0 <= i < freqs.len() ==> (#[trigger] freqs[i]).1 == capped(occurrences(toks, freqs[i].0@))
}

/// `distinct(s)` has the members of `s`.
pub proof fn lemma_distinct_members(s: Seq<Seq<char>>, t: Seq<char>)
    ensures
        distinct(s).contains(t) <==> s.contains(t),
    decreases s.len(),
{
    if s.len() > 0 {
        let p = s.drop_last();
        lemma_distinct_members(p, t);
        let d = distinct(p);
        if s.contains(t) {
            let k = choose|k: int| 0 <= k < s.len() && s[k] == t;
            if k < s.len() - 1 {
                assert(p[k] == t);
                let j = choose|j: int| 0 <= j < d.len() && d[j] == t;
                assert(distinct(s)[j] == t);
            } else if d.contains(t) {
                let j = choose|j: int| 0 <= j < d.len() && d[j] == t;
                assert(distinct(s)[j] == t);
            } else {
                assert(distinct(s)[d.len() as int] == t);
            }
        }
        if distinct(s).contains(t) {
            let j = choose|j: int| 0 <= j < distinct(s).len() && distinct(s)[j] == t;
            if j < d.len() {
                assert(d[j] == t);
                let k = choose|k: int| 0 <= k < p.len() && p[k] == t;
                assert(s[k] == t);
            } else {
                assert(s[s.len() - 1] == t);
            }
        }
    }
}

/// `distinct(s)` holds no text twice and is no longer than `s`.
pub proof fn lemma_distinct_no_duplicates(s: Seq<Seq<char>>)
    ensures
        distinct(s).no_duplicates(),
        distinct(s).len() <= s.len(),
    decreases s.len(),
{
    if s.len() > 0 {
        lemma_distinct_no_duplicates(s.drop_last());
    }
}

/// A text that occurs in `s` occurs at least once.
pub proof fn lemma_occurrences(s: Seq<Seq<char>>, t: Seq<char>)
    ensures
        s.contains(t) <==> occurrences(s, t) > 0,
        occurrences(s, t) <= s.len(),
    decreases s.len(),
{
    if s.len() > 0 {
        let p = s.drop_last();
        lemma_occurrences(p, t);
        if s.contains(t) {
            let k = choose|k: int| 0 <= k < s.len() && s[k] == t;
            if k < s.len() - 1 {
                assert(p[k] == t);
            }
        }
        if p.contains(t) {
            let k = choose|k: int| 0 <= k < p.len() && p[k] == t;
            assert(s[k] == t);
        }
        if s.last() == t {
            assert(s[s.len() - 1] == t);
        }
    }
}

/// Deterministic tokenizer with a fixed stop-word list.
pub struct Tokenizer {
    stop_words: Vec<&'static str>,
}

impl Tokenizer {
    /// The tokenizer holds exactly the fixed list.
    pub closed spec fn wf(&self) -> bool {
        &&& self.stop_words@.len() == stop_words().len()
        &&& forall|i: int| 0 <= i < self.stop_words@.len() ==> self.stop_words@[i]@ == stop_words()[i]
    }

    /// A tokenizer with the fixed stop-word list.
    pub fn new() -> (r: Tokenizer)
        ensures
            r.wf(),
    {
        let stop_words: Vec<&'static str> = vec![
            "the", "a", "an", "is", "are", "was", "were", "be", "been", "being", "have", "has",
            "had", "do", "does", "did", "will", "would", "could", "should", "may", "might",
            "shall", "can", "need", "must", "to", "of", "in", "for", "on", "with", "at", "by",
            "from", "as", "into", "about", "but", "not", "or", "and", "if", "it", "its", "this",
            "that", "which", "who", "what", "when", "where", "how", "all", "each", "both", "few",
            "more", "most", "other", "some", "such", "no", "than", "too", "very", "just", "also",
        ];
        Tokenizer { stop_words }
    }

    /// Whether a piece is on the stop-word list.
    fn is_stop_word(&self, piece: &str) -> (r: bool)
        requires
            self.wf(),
        ensures
            r == stop_words().contains(piece@),
    {
        let mut i: usize = 0;
        while i < self.stop_words.len()
            invariant
                self.wf(),
                i <= self.stop_words@.len(),
                forall|j: int| 0 <= j < i ==> stop_words()[j] != piece@,
            decreases self.stop_words@.len() - i,
        {
            if str_eq(self.stop_words[i], piece) {
                assert(stop_words()[i as int] == piece@);
                return true;
            }
            i += 1;
        }
        false
    }

    /// The tokens of `text`, in order.
    pub fn tokenize(&self, text: &str) -> (r: Vec<String>)
        requires
            self.wf(),
        ensures
            texts(r@) == tokens(text@),
    {
        let chars = lowercase_chars(text);
        let word = classify(&chars);
        self.split(&chars, &word)
    }

    /// The tokens of a text that is given by its characters, with the
    /// word of each on whether it belongs to words: the maximal runs of
    /// such characters, without those of fewer than two characters and the
    /// stop words, in order.
    pub fn split(&self, chars: &Vec<char>, word: &Vec<bool>) -> (r: Vec<String>)
        requires
            self.wf(),
            word@.len() == chars@.len(),
        ensures
            texts(r@) == pieces(chars@, word@),
    {
        let mut out: Vec<String> = Vec::new();
        let mut start: usize = 0;
        let mut i: usize = 0;
        assert(chars@.take(0) =~= Seq::<char>::empty());
        assert(chars@.subrange(0, 0) =~= Seq::<char>::empty());
        assert(texts(out@) =~= Seq::<Seq<char>>::empty());
        while i < chars.len()
            invariant
                self.wf(),
                word@.len() == chars@.len(),
                start <= i <= chars@.len(),
                texts(out@) == closed_tokens(chars@.take(i as int), word@),
                chars@.subrange(start as int, i as int) == open_piece(chars@.take(i as int), word@),
            decreases chars@.len() - i,
        {
            let c = chars[i];
            let ghost before = chars@.take(i as int);
            let ghost after = chars@.take(i + 1);
            assert(after.drop_last() =~= before);
            assert(after.last() == c);
            if word[i] {
                assert(chars@.subrange(start as int, i + 1) =~= chars@.subrange(
                    start as int,
                    i as int,
                ).push(c));
            } else {
                if start < i {
                    self.keep(chars, start, i, &mut out);
                } else {
                    assert(chars@.subrange(start as int, i as int) =~= Seq::<char>::empty());
                }
                start = i + 1;
                assert(chars@.subrange(i + 1, i + 1) =~= Seq::<char>::empty());
            }
            i += 1;
        }
        assert(chars@.take(i as int) =~= chars@);
        if start < i {
            self.keep(chars, start, i, &mut out);
        } else {
            assert(chars@.subrange(start as int, i as int) =~= Seq::<char>::empty());
        }
        out
    }

    /// Adds the piece `chars[from..to]` to the tokens if it is one.
    fn keep(&self, chars: &Vec<char>, from: usize, to: usize, out: &mut Vec<String>)
        requires
            self.wf(),
            from <= to <= chars@.len(),
        ensures
            texts(final(out)@) == if is_token(chars@.subrange(from as int, to as int)) {
                texts(old(out)@).push(chars@.subrange(from as int, to as int))
            } else {
                texts(old(out)@)
            },
    {
        let piece = string_from_chars(chars, from, to);
        if to - from >= 2 && !self.is_stop_word(piece.as_str()) {
            let ghost prev = out@;
            out.push(piece);
            assert(texts(out@) =~= texts(prev).push(piece@));
        }
    }

    /// The frequency table of the tokens of `text`.
    pub fn term_frequencies(&self, text: &str) -> (r: Vec<(String, u32)>)
        requires
            self.wf(),
        ensures
            is_frequency_table(r@, tokens(text@)),
    {
        let toks = self.tokenize(text);
        count_terms(&toks)
    }
}

/// The frequency table of a token sequence.
pub fn count_terms(toks: &Vec<String>) -> (r: Vec<(String, u32)>)
    ensures
        is_frequency_table(r@, texts(toks@)),
{
    let mut freqs: Vec<(String, u32)> = Vec::new();
    let mut i: usize = 0;
    assert(texts(toks@).take(0) =~= Seq::<Seq<char>>::empty());
    assert(terms_of(freqs@) =~= Seq::<Seq<char>>::empty());
    while i < toks.len()
        invariant
            i <= toks@.len(),
            is_frequency_table(freqs@, texts(toks@).take(i as int)),
        decreases toks@.len() - i,
    {
        let ghost before = texts(toks@).take(i as int);
        let ghost after = texts(toks@).take(i + 1);
        let ghost t = toks@[i as int]@;
        assert(after.drop_last() =~= before);
        assert(after.last() == t);
        let ghost old_freqs = freqs@;
        let mut j: usize = 0;
        while j < freqs.len()
            invariant
                j <= freqs@.len(),
                i < toks@.len(),
                t == toks@[i as int]@,
                freqs@ == old_freqs,
                forall|k: int| 0 <= k < j ==> terms_of(freqs@)[k] != t,
            ensures
                j < freqs@.len() ==> terms_of(freqs@)[j as int] == t,
            decreases freqs@.len() - j,
        {
            if str_eq(freqs[j].0.as_str(), toks[i].as_str()) {
                break;
            }
            j += 1;
        }
        if j < freqs.len() {
            assert(terms_of(old_freqs)[j as int] == t);
            assert(distinct(before).contains(t));
            let term = freqs[j].0.clone();
            let n = freqs[j].1;
            let m: u32 = if n < u32::MAX { n + 1 } else { n };
            freqs.set(j, (term, m));
            assert(terms_of(freqs@) =~= terms_of(old_freqs));
            assert forall|k: int| 0 <= k < freqs@.len() implies (#[trigger] freqs@[k]).1 == capped(
                occurrences(after, freqs@[k].0@),
            ) by {
                if k != j {
                    assert(freqs@[k] == old_freqs[k]);
                    lemma_distinct_no_duplicates(before);
                    assert(terms_of(old_freqs)[k] == old_freqs[k].0@);
                    assert(terms_of(old_freqs)[j as int] == old_freqs[j as int].0@);
                }
            }
        } else {
            assert(!distinct(before).contains(t)) by {
                if distinct(before).contains(t) {
                    let k = choose|k: int| 0 <= k < distinct(before).len() && distinct(before)[k] == t;
                    assert(terms_of(freqs@)[k] != t);
                }
            }
            proof {
                lemma_distinct_members(before, t);
                lemma_occurrences(before, t);
            }
            freqs.push((toks[i].clone(), 1));
            assert(terms_of(freqs@) =~= terms_of(old_freqs).push(t));
            assert forall|k: int| 0 <= k < freqs@.len() implies (#[trigger] freqs@[k]).1 == capped(
                occurrences(after, freqs@[k].0@),
            ) by {
                if k < old_freqs.len() {
                    assert(freqs@[k] == old_freqs[k]);
                    assert(terms_of(old_freqs)[k] == old_freqs[k].0@);
                    assert(distinct(before).contains(old_freqs[k].0@));
                }
            }
        }
        i += 1;
    }
    assert(texts(toks@).take(i as int) =~= texts(toks@));
    freqs
}

/// Of each character, whether it is alphanumeric.
fn classify(chars: &Vec<char>) -> (r: Vec<bool>)
    ensures
        r@ == classes(chars@),
{
    let mut out: Vec<bool> = Vec::new();
    let mut i: usize = 0;
    while i < chars.len()
        invariant
            i <= chars@.len(),
            out@.len() == i,
            forall|j: int| 0 <= j < i ==> out@[j] == alphanumeric(chars@[j]),
        decreases chars@.len() - i,
    {
        out.push(is_alphanumeric(chars[i]));
        i += 1;
    }
    assert(out@ =~= classes(chars@));
    out
}

/// All the maximal runs of characters that belong to words, in order, of a
/// text that is given by its characters with the word of each on whether
/// it belongs to words.
pub fn split_runs(chars: &Vec<char>, word: &Vec<bool>) -> (r: Vec<String>)
    requires
        word@.len() == chars@.len(),
    ensures
        texts(r@) == runs(chars@, word@),
{
    let mut out: Vec<String> = Vec::new();
    let mut start: usize = 0;
    let mut i: usize = 0;
    assert(chars@.take(0) =~= Seq::<char>::empty());
    assert(chars@.subrange(0, 0) =~= Seq::<char>::empty());
    assert(texts(out@) =~= Seq::<Seq<char>>::empty());
    while i < chars.len()
        invariant
            word@.len() == chars@.len(),
            start <= i <= chars@.len(),
            texts(out@) == closed_words(chars@.take(i as int), word@),
            chars@.subrange(start as int, i as int) == open_piece(chars@.take(i as int), word@),
        decreases chars@.len() - i,
    {
        let c = chars[i];
        let ghost before = chars@.take(i as int);
        let ghost after = chars@.take(i + 1);
        assert(after.drop_last() =~= before);
        assert(after.last() == c);
        if word[i] {
            assert(chars@.subrange(start as int, i + 1) =~= chars@.subrange(
                start as int,
                i as int,
            ).push(c));
        } else {
            if start < i {
                let piece = string_from_chars(chars, start, i);
                let ghost prev = out@;
                out.push(piece);
                assert(texts(out@) =~= texts(prev).push(piece@));
            }
            start = i + 1;
            assert(chars@.subrange(i + 1, i + 1) =~= Seq::<char>::empty());
        }
        i += 1;
    }
    assert(chars@.take(i as int) =~= chars@);
    if start < i {
        let piece = string_from_chars(chars, start, i);
        let ghost prev = out@;
        out.push(piece);
        assert(texts(out@) =~= texts(prev).push(piece@));
    }
    out
}

/// Of each character, whether it is alphanumeric or an apostrophe.
fn classify_written(chars: &Vec<char>) -> (r: Vec<bool>)
    ensures
        r@ == word_classes(chars@),
{
    let mut out: Vec<bool> = Vec::new();
    let mut i: usize = 0;
    while i < chars.len()
        invariant
            i <= chars@.len(),
            out@.len() == i,
            forall|j: int| 0 <= j < i ==> out@[j] == (alphanumeric(chars@[j]) || chars@[j] == '\''),
        decreases chars@.len() - i,
    {
        let c = chars[i];
        out.push(is_alphanumeric(c) || c == '\'');
        i += 1;
    }
    assert(out@ =~= word_classes(chars@));
    out
}

/// The words of a text as they are written, in lowercase and in order.
pub fn words_of(text: &str) -> (r: Vec<String>)
    ensures
        texts(r@) == words(text@),
{
    let chars = lowercase_chars(text);
    let word = classify_written(&chars);
    split_runs(&chars, &word)
}

} // verus!
