//! The few text primitives of the standard library that the engine relies on,
//! each behind a contract over `Seq<char>`.

use vstd::prelude::*;

verus! {

/// What `str::to_lowercase` returns for a text: its Unicode lowercase form,
/// which depends on the characters alone.
pub uninterp spec fn lowercase(s: Seq<char>) -> Seq<char>;

/// What `char::is_alphanumeric` returns: membership in the Unicode
/// alphabetic or numeric classes.
pub uninterp spec fn alphanumeric(c: char) -> bool;

/// Calls `str::to_lowercase` and hands the characters of the result out one
/// by one.
#[verifier::external_body]
pub(crate) fn lowercase_chars(text: &str) -> (r: Vec<char>)
    ensures
        r@ == lowercase(text@),
{
    text.to_lowercase().chars().collect()
}

/// Calls `char::is_alphanumeric`.
#[verifier::external_body]
pub(crate) fn is_alphanumeric(c: char) -> (r: bool)
    ensures
        r == alphanumeric(c),
{
    c.is_alphanumeric()
}

/// Compares two string slices with `str::eq`, which holds exactly when they
/// are the same sequence of characters.
#[verifier::external_body]
pub(crate) fn str_eq(a: &str, b: &str) -> (r: bool)
    ensures
        r == (a@ == b@),
{
    a == b
}

/// Collects the characters `chars[from..to]` into a `String`.
#[verifier::external_body]
pub(crate) fn string_from_chars(chars: &Vec<char>, from: usize, to: usize) -> (r: String)
    requires
        from <= to <= chars@.len(),
    ensures
        r@ == chars@.subrange(from as int, to as int),
{
    chars[from..to].iter().collect()
}

/// Hands out the characters of a text one by one, as `str::chars` yields them.
#[verifier::external_body]
pub(crate) fn chars_of(text: &str) -> (r: Vec<char>)
    ensures
        r@ == text@,
{
    text.chars().collect()
}

/// Reads bytes as text with `str::from_utf8`, which accepts exactly the
/// well-formed UTF-8 sequences and yields the characters that they encode.
#[verifier::external_body]
pub(crate) fn utf8_text(bytes: &[u8]) -> (r: Option<String>)
    ensures
        r is Some <==> vstd::utf8::valid_utf8(bytes@),
        r is Some ==> r->0@ == vstd::utf8::decode_utf8(bytes@),
{
    match std::str::from_utf8(bytes) {
        Ok(s) => Some(s.to_owned()),
        Err(_) => None,
    }
}

} // verus!
