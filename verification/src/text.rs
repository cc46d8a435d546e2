//! Trusted bridges to std's text operations.
//!
//! Everything here either forwards to one std function under a contract
//! that its documentation plainly gives, or names a result that depends on
//! the arguments alone.

use vstd::prelude::*;

verus! {

/// Relies on String::push: appends exactly the given character.
#[verifier::external_body]
pub(crate) fn push_char(s: &mut String, c: char)
    ensures
        final(s)@ == old(s)@.push(c),
{
    s.push(c);
}

/// Relies on char::from_u32: returns `Some` of the character with the given
/// code point exactly when the code point is a Unicode scalar value, i.e.
/// outside the surrogate band and below 0x110000.
#[verifier::external_body]
pub(crate) fn char_from_code(code: u32) -> (r: char)
    requires
        code < 0xD800 || (0xE000 <= code && code < 0x110000),
    ensures
        r as u32 == code,
{
    match char::from_u32(code) {
        Some(c) => c,
        None => ' ',
    }
}

/// What str::to_lowercase returns: a function of the characters alone.
pub uninterp spec fn lower_of(s: Seq<char>) -> Seq<char>;

/// Relies on str::to_lowercase: the lowercased text depends on the input
/// characters alone.
#[verifier::external_body]
pub(crate) fn to_lowercase(s: &str) -> (r: String)
    ensures
        r@ == lower_of(s@),
{
    s.to_lowercase()
}

/// Whether char::is_alphabetic holds: a property of the character alone.
pub uninterp spec fn alphabetic(c: char) -> bool;

/// Relies on char::is_alphabetic: the classification depends on the
/// character alone.
#[verifier::external_body]
pub(crate) fn is_alphabetic_char(c: char) -> (r: bool)
    ensures
        r == alphabetic(c),
{
    c.is_alphabetic()
}

} // verus!
