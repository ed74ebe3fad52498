//! The order of terms: character by character, a proper prefix first.

use vstd::prelude::*;

verus! {

broadcast use {vstd::utf8::char_is_scalar, vstd::utf8::char_u32_cast};

/// Two characters with the same number are the same character.
pub proof fn lemma_same_number(x: char, y: char)
    requires
        x as u32 == y as u32,
    ensures
        x == y,
{
    let u = x as u32;
    assert((u as char) == x);
    assert((u as char) == y);
}

/// Whether `a` comes before `b` in the order of terms.
pub open spec fn comes_first(a: Seq<char>, b: Seq<char>) -> bool
    decreases a.len(),
{
    if b.len() == 0 {
        false
    } else if a.len() == 0 {
        true
    } else if (a[0] as u32) < (b[0] as u32) {
        true
    } else if (a[0] as u32) > (b[0] as u32) {
        false
    } else {
        comes_first(a.skip(1), b.skip(1))
    }
}

/// How two terms stand to each other.
#[derive(Clone, Copy, Debug, PartialEq, Eq, Structural)]
pub enum Standing {
    Before,
    Same,
    After,
}

/// The standing of `a` to `b`.
pub open spec fn standing(a: Seq<char>, b: Seq<char>) -> Standing {
    if a == b {
        Standing::Same
    } else if comes_first(a, b) {
        Standing::Before
    } else {
        Standing::After
    }
}

/// No term comes before itself.
pub proof fn lemma_irreflexive(a: Seq<char>)
    ensures
        !comes_first(a, a),
    decreases a.len(),
{
    if a.len() > 0 {
        lemma_irreflexive(a.skip(1));
    }
}

/// Of two different terms one comes before the other, and not both.
pub proof fn lemma_total(a: Seq<char>, b: Seq<char>)
    ensures
        a == b || comes_first(a, b) || comes_first(b, a),
        !(comes_first(a, b) && comes_first(b, a)),
    decreases a.len(),
{
    if a.len() == 0 || b.len() == 0 {
        if a.len() == 0 && b.len() == 0 {
            assert(a =~= b);
        }
    } else if a[0] as u32 == b[0] as u32 {
        lemma_same_number(a[0], b[0]);
        lemma_total(a.skip(1), b.skip(1));
        if a.skip(1) == b.skip(1) {
            assert(a =~= seq![a[0]] + a.skip(1));
            assert(b =~= seq![b[0]] + b.skip(1));
        }
    }
}

/// What comes before a term that comes before a third comes before the
/// third.
pub proof fn lemma_transitive(a: Seq<char>, b: Seq<char>, c: Seq<char>)
    requires
        comes_first(a, b),
        comes_first(b, c),
    ensures
        comes_first(a, c),
    decreases a.len(),
{
    if a.len() > 0 && b.len() > 0 && c.len() > 0 {
        if a[0] as u32 == b[0] as u32 && b[0] as u32 == c[0] as u32 {
            lemma_transitive(a.skip(1), b.skip(1), c.skip(1));
        }
    }
}

/// The standing of two terms depends only on what follows their common
/// beginning.
proof fn lemma_skip_common(a: Seq<char>, b: Seq<char>, n: int)
    requires
        0 <= n <= a.len(),
        n <= b.len(),
        forall|i: int| 0 <= i < n ==> a[i] == b[i],
    ensures
        comes_first(a, b) == comes_first(a.skip(n), b.skip(n)),
    decreases n,
{
    if n > 0 {
        assert(a.skip(1).skip(n - 1) =~= a.skip(n));
        assert(b.skip(1).skip(n - 1) =~= b.skip(n));
        lemma_skip_common(a.skip(1), b.skip(1), n - 1);
    } else {
        assert(a.skip(0) =~= a);
        assert(b.skip(0) =~= b);
    }
}

/// Decides the standing of two terms.
pub fn compare_terms(a: &Vec<char>, b: &Vec<char>) -> (r: Standing)
    ensures
        r == standing(a@, b@),
{
    let mut i: usize = 0;
    while i < a.len() && i < b.len()
        invariant
            i <= a@.len(),
            i <= b@.len(),
            forall|j: int| 0 <= j < i ==> a@[j] == b@[j],
        decreases a@.len() - i,
    {
        let x = a[i] as u32;
        let y = b[i] as u32;
        if x != y {
            proof {
                lemma_skip_common(a@, b@, i as int);
                assert(a@.skip(i as int)[0] == a@[i as int]);
                assert(b@.skip(i as int)[0] == b@[i as int]);
                assert(a@ != b@);
                lemma_total(a@, b@);
            }
            return if x < y { Standing::Before } else { Standing::After };
        }
        proof {
            lemma_same_number(a@[i as int], b@[i as int]);
        }
        i += 1;
    }
    proof {
        lemma_skip_common(a@, b@, i as int);
        if a@.len() == b@.len() {
            assert(a@ =~= b@);
        } else {
            lemma_total(a@, b@);
        }
    }
    if a.len() == b.len() {
        Standing::Same
    } else if a.len() < b.len() {
        Standing::Before
    } else {
        Standing::After
    }
}

} // verus!
