use vstd::prelude::*;

verus! {

/// Whether `c` has the Unicode property Alphabetic: what `char::is_alphabetic`
/// returns for it.
pub uninterp spec fn alphabetic(c: char) -> bool;

/// Whether `c` is alphabetic or numeric in Unicode's sense: what
/// `char::is_alphanumeric` returns for it.
pub uninterp spec fn alphanumeric(c: char) -> bool;

/// Whether `c` is one of the ten decimal digits `0` to `9`.
pub open spec fn digit(c: char) -> bool {
    '0' <= c && c <= '9'
}

/// Calls `char::is_alphabetic`. Its answer depends on `c` alone and is given
/// by Unicode's tables, so the contract only names it.
#[verifier::external_body]
pub(crate) fn is_alphabetic(c: char) -> (b: bool)
    ensures
        b == alphabetic(c),
{
    c.is_alphabetic()
}

/// Calls `char::is_alphanumeric`. Its answer depends on `c` alone and is
/// given by Unicode's tables, so the contract only names it.
#[verifier::external_body]
pub(crate) fn is_alphanumeric(c: char) -> (b: bool)
    ensures
        b == alphanumeric(c),
{
    c.is_alphanumeric()
}

/// Whether `c` is one of the 128 characters of ASCII.
pub open spec fn ascii(c: char) -> bool {
    c <= '\u{7f}'
}

/// Whether `c` is a letter: in ASCII one of `a` to `z` and `A` to `Z`, beyond
/// ASCII a character that Unicode calls alphabetic.
pub open spec fn letter(c: char) -> bool {
    if ascii(c) {
        ('a' <= c && c <= 'z') || ('A' <= c && c <= 'Z')
    } else {
        alphabetic(c)
    }
}

/// Whether `c` may stand inside a word: in ASCII a letter or a digit, beyond
/// ASCII a character that Unicode calls alphabetic or numeric.
pub open spec fn word_char(c: char) -> bool {
    if ascii(c) {
        letter(c) || digit(c)
    } else {
        alphanumeric(c)
    }
}

/// Whether `c` is a letter.
pub fn is_letter(c: char) -> (b: bool)
    ensures
        b == letter(c),
{
    if c <= '\u{7f}' {
        ('a' <= c && c <= 'z') || ('A' <= c && c <= 'Z')
    } else {
        is_alphabetic(c)
    }
}

/// Whether `c` may stand inside a word.
pub fn is_word_char(c: char) -> (b: bool)
    ensures
        b == word_char(c),
{
    if c <= '\u{7f}' {
        ('a' <= c && c <= 'z') || ('A' <= c && c <= 'Z') || ('0' <= c && c <= '9')
    } else {
        is_alphanumeric(c)
    }
}

/// Whether `c` is a decimal digit.
pub fn is_digit(c: char) -> (b: bool)
    ensures
        b == digit(c),
{
    '0' <= c && c <= '9'
}

} // verus!
