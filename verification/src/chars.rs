//! Character classification used by the lexer.
//!
//! The grammar's four structural characters are fully specified here.  The
//! Unicode classes (whitespace, alphabetic, numeric) come from `std`'s `char`
//! methods: their behaviour on ASCII is spelled out exactly, while the part
//! beyond ASCII is left abstract, since the lexer's decisions only ever need
//! the ASCII portion to be concrete.

use vstd::prelude::*;

verus! {

/// Whether `c` is one of the four structural characters of the object grammar.
pub open spec fn is_structural(c: char) -> bool {
    c == '(' || c == ')' || c == ',' || c == '='
}

/// Unicode `White_Space` membership for characters beyond ASCII; the ASCII
/// part is written out in `is_ws`.
pub uninterp spec fn non_ascii_whitespace(c: char) -> bool;

/// What `char::is_whitespace` returns: on ASCII, exactly space, tab, line
/// feed, vertical tab, form feed and carriage return.
pub open spec fn is_ws(c: char) -> bool {
    if (c as u32) < 128 {
        c == ' ' || c == '\t' || c == '\n' || c == '\u{b}' || c == '\u{c}' || c == '\r'
    } else {
        non_ascii_whitespace(c)
    }
}

/// Unicode `Alphabetic` membership for characters beyond ASCII; the ASCII
/// part is written out in `is_alpha`.
pub uninterp spec fn non_ascii_alphabetic(c: char) -> bool;

/// What `char::is_alphabetic` returns: on ASCII, exactly the letters.
pub open spec fn is_alpha(c: char) -> bool {
    if (c as u32) < 128 {
        ('a' <= c && c <= 'z') || ('A' <= c && c <= 'Z')
    } else {
        non_ascii_alphabetic(c)
    }
}

/// Unicode numeric membership (categories Nd, Nl, No) for characters beyond
/// ASCII; the ASCII part is written out in `is_num`.
pub uninterp spec fn non_ascii_numeric(c: char) -> bool;

/// What `char::is_numeric` returns: on ASCII, exactly the decimal digits.
pub open spec fn is_num(c: char) -> bool {
    if (c as u32) < 128 {
        '0' <= c && c <= '9'
    } else {
        non_ascii_numeric(c)
    }
}

/// An ASCII decimal digit.
pub open spec fn is_digit(c: char) -> bool {
    '0' <= c && c <= '9'
}

/// Relies on `char::is_whitespace`: true exactly on Unicode `White_Space`
/// characters, which within ASCII are space, tab, line feed, vertical tab,
/// form feed and carriage return.
#[verifier::external_body]
pub(crate) fn char_is_whitespace(c: char) -> (r: bool)
    ensures
        r == is_ws(c),
        (c as u32) >= 128 ==> r == non_ascii_whitespace(c),
{
    c.is_whitespace()
}

/// Relies on `char::is_alphabetic`: true exactly on Unicode `Alphabetic`
/// characters, which within ASCII are the letters `a`-`z` and `A`-`Z`.
#[verifier::external_body]
pub(crate) fn char_is_alphabetic(c: char) -> (r: bool)
    ensures
        r == is_alpha(c),
        (c as u32) >= 128 ==> r == non_ascii_alphabetic(c),
{
    c.is_alphabetic()
}

/// Relies on `char::is_numeric`: true exactly on characters in the Unicode
/// numeric general categories, which within ASCII are the digits `0`-`9`.
#[verifier::external_body]
pub(crate) fn char_is_numeric(c: char) -> (r: bool)
    ensures
        r == is_num(c),
        (c as u32) >= 128 ==> r == non_ascii_numeric(c),
{
    c.is_numeric()
}

/// Relies on `char::is_alphanumeric`, which by its documentation is true
/// exactly where `char::is_alphabetic` or `char::is_numeric` is.
#[verifier::external_body]
pub(crate) fn char_is_alphanumeric(c: char) -> (r: bool)
    ensures
        r == (is_alpha(c) || is_num(c)),
{
    c.is_alphanumeric()
}

/// Whether `c` is one of the four structural characters, decided in
/// executable code.
pub(crate) fn char_is_structural(c: char) -> (r: bool)
    ensures
        r == is_structural(c),
{
    c == '(' || c == ')' || c == ',' || c == '='
}

/// Relies on `String`'s `FromIterator<char>` implementation: collecting an
/// iterator of characters yields a string holding exactly those characters in
/// order.
#[verifier::external_body]
pub(crate) fn chars_to_string(v: &Vec<char>) -> (s: String)
    ensures
        s@ == v@,
{
    v.iter().collect()
}

/// Copies the characters of a string slice into a vector.
pub(crate) fn str_to_chars(s: &str) -> (v: Vec<char>)
    ensures
        v@ == s@,
{
    let n = s.unicode_len();
    let mut v: Vec<char> = Vec::new();
    let mut i: usize = 0;
    while i < n
        invariant
            n == s@.len(),
            i <= n,
            v@ == s@.take(i as int),
        decreases n - i,
    {
        let c = s.get_char(i);
        v.push(c);
        i = i + 1;
        proof {
            assert(v@ =~= s@.take(i as int));
        }
    }
    proof {
        assert(v@ =~= s@);
    }
    v
}

} // verus!
