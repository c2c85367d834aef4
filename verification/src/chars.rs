//! Character classes and character-indexed access to text.
//!
//! Text is modelled as a sequence of characters (`Seq<char>`), and every
//! offset in this crate counts characters, never bytes.

use vstd::prelude::*;

verus! {

/// An ASCII decimal digit.
pub open spec fn is_digit(c: char) -> bool {
    '0' <= c <= '9'
}

/// The number that a decimal digit stands for.
pub open spec fn digit_value(c: char) -> nat
    recommends
        is_digit(c),
{
    (c as u32 - '0' as u32) as nat
}

/// Whether Unicode classifies `c` as alphanumeric, as `char::is_alphanumeric`
/// of the standard library decides it.
pub uninterp spec fn is_alphanumeric(c: char) -> bool;

/// A word character: alphanumeric, or the underscore.
pub open spec fn is_word(c: char) -> bool {
    is_alphanumeric(c) || c == '_'
}

/// A quantifier suffix: `+`, `*` or `?`.
pub open spec fn is_quantifier(c: char) -> bool {
    c == '+' || c == '*' || c == '?'
}

/// Calls `char::is_alphanumeric`. Nothing is proved of it: the result is
/// taken to be the Unicode classification named by `is_alphanumeric`.
#[verifier::external_body]
fn char_is_alphanumeric(c: char) -> (r: bool)
    ensures
        r == is_alphanumeric(c),
{
    c.is_alphanumeric()
}

/// Whether `c` is an ASCII decimal digit.
pub fn is_digit_char(c: char) -> (r: bool)
    ensures
        r == is_digit(c),
{
    '0' <= c && c <= '9'
}

/// The number that the decimal digit `c` stands for.
pub fn digit_of(c: char) -> (r: usize)
    requires
        is_digit(c),
    ensures
        r == digit_value(c),
        r <= 9,
{
    (c as u32 - '0' as u32) as usize
}

/// Whether `c` is a word character: alphanumeric, or the underscore.
pub fn is_word_char(c: char) -> (r: bool)
    ensures
        r == is_word(c),
{
    char_is_alphanumeric(c) || c == '_'
}

/// The number of characters in `s`.
pub fn char_count(s: &str) -> (n: usize)
    ensures
        n == s@.len(),
{
    s.unicode_len()
}

/// The text of `s` from character `from` up to, not including, character `to`.
pub fn slice_chars<'a>(s: &'a str, from: usize, to: usize) -> (r: &'a str)
    requires
        from <= to <= s@.len(),
    ensures
        r@ == s@.subrange(from as int, to as int),
{
    s.substring_char(from, to)
}

/// The text of `s` without its first `k` characters.
pub fn skip_chars<'a>(s: &'a str, k: usize) -> (r: &'a str)
    requires
        k <= s@.len(),
    ensures
        r@ == s@.skip(k as int),
{
    let n = s.unicode_len();
    s.substring_char(k, n)
}

} // verus!
