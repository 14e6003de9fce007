//! Case policy: how two tokens are compared for equality.
//!
//! A case-sensitive processor compares tokens by their characters; a
//! case-insensitive one compares them under full Unicode case folding, as the
//! `unicase` crate implements it.

use vstd::prelude::*;

verus! {

/// The Unicode case folding that `unicase` applies to every character of a
/// string before comparing in its Unicode (non-ASCII) mode.  The folding
/// tables live in that crate; only the name is stated here.
pub uninterp spec fn case_fold(s: Seq<char>) -> Seq<char>;

/// Relies on `unicase::UniCase::unicode` and its `PartialEq`: two strings
/// compare equal exactly when their case-folded character sequences are equal.
#[verifier::external_body]
pub(crate) fn unicase_eq(a: &str, b: &str) -> (r: bool)
    ensures
        r == (case_fold(a@) == case_fold(b@)),
{
    unicase::UniCase::unicode(a) == unicase::UniCase::unicode(b)
}

/// Relies on `str`'s `PartialEq`: equality of the character sequences.
#[verifier::external_body]
pub(crate) fn str_eq(a: &str, b: &str) -> (r: bool)
    ensures
        r == (a@ == b@),
{
    a == b
}

/// The lowercase mapping that `str::to_lowercase` computes, named: it depends
/// on the characters alone.
pub uninterp spec fn lower_of(s: Seq<char>) -> Seq<char>;

/// Relies on `str::to_lowercase`: the result is a function of the characters
/// alone, and an empty string stays empty.
#[verifier::external_body]
pub(crate) fn to_lowercase(s: &str) -> (r: String)
    ensures
        r@ == lower_of(s@),
        s@.len() == 0 ==> r@.len() == 0,
{
    s.to_lowercase()
}

/// The Unicode `White_Space` property, as `char::is_whitespace` decides it.
pub uninterp spec fn is_unicode_ws(c: char) -> bool;

/// Relies on `char::is_whitespace`: a pure predicate on the character.
#[verifier::external_body]
pub(crate) fn is_whitespace_char(c: char) -> (r: bool)
    ensures
        r == is_unicode_ws(c),
{
    c.is_whitespace()
}

/// The key under which a token is stored and looked up: the token itself in
/// case-sensitive mode, its case folding otherwise.
pub open spec fn key_of(case_sensitive: bool, t: Seq<char>) -> Seq<char> {
    if case_sensitive {
        t
    } else {
        case_fold(t)
    }
}

/// Compares two tokens under the processor's case policy.
pub(crate) fn tok_eq(case_sensitive: bool, a: &str, b: &str) -> (r: bool)
    ensures
        r == (key_of(case_sensitive, a@) == key_of(case_sensitive, b@)),
{
    if case_sensitive {
        str_eq(a, b)
    } else {
        unicase_eq(a, b)
    }
}

} // verus!
