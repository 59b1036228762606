//! Character classification, and string-slice equality.
//!
//! The lexer decides token boundaries with the Unicode character classes
//! that `char` exposes. Those classes are named here by uninterpreted spec
//! functions; the executable wrappers below are the only places that call
//! into `char`'s classification methods.
use vstd::prelude::*;

verus! {

/// Whether `c` has the Unicode white-space property, as decided by
/// `char::is_whitespace`.
pub uninterp spec fn is_ws(c: char) -> bool;

/// Whether `c` has the Unicode alphabetic property, as decided by
/// `char::is_alphabetic`.
pub uninterp spec fn is_alpha(c: char) -> bool;

/// Whether `c` is numeric, as decided by `char::is_numeric`.
pub uninterp spec fn is_num(c: char) -> bool;

/// A character continues an identifier exactly when it is alphanumeric:
/// alphabetic or numeric.
pub open spec fn is_alnum(c: char) -> bool {
    is_alpha(c) || is_num(c)
}

/// Relies on `char::is_whitespace`: true exactly on characters with the
/// Unicode white-space property, a function of the character alone.
#[verifier::external_body]
pub(crate) fn char_is_whitespace(c: char) -> (r: bool)
    ensures
        r == is_ws(c),
{
    c.is_whitespace()
}

/// Relies on `char::is_alphabetic`: true exactly on characters with the
/// Unicode alphabetic property, a function of the character alone.
#[verifier::external_body]
pub(crate) fn char_is_alphabetic(c: char) -> (r: bool)
    ensures
        r == is_alpha(c),
{
    c.is_alphabetic()
}

/// Relies on `char::is_alphanumeric`, whose documentation defines it as
/// `char::is_alphabetic` or `char::is_numeric`.
#[verifier::external_body]
pub(crate) fn char_is_alphanumeric(c: char) -> (r: bool)
    ensures
        r == (is_alpha(c) || is_num(c)),
{
    c.is_alphanumeric()
}

/// Relies on `str`'s `PartialEq`: two string slices are equal exactly when
/// their character sequences are equal.
#[verifier::external_body]
pub(crate) fn str_eq(a: &str, b: &str) -> (r: bool)
    ensures
        r == (a@ == b@),
{
    a == b
}

} // verus!
