//! Small operations on text that the feeds need.

use vstd::prelude::*;

verus! {

/// The ASCII upper case of a character: `a` to `z` become `A` to `Z`, every
/// other character stays.
pub open spec fn upper(c: char) -> char {
    if 'a' <= c && c <= 'z' {
        ((c as u32) - 32) as char
    } else {
        c
    }
}

/// The text with every character in ASCII upper case.
pub open spec fn ascii_upper(text: Seq<char>) -> Seq<char> {
    Seq::new(text.len(), |i: int| upper(text[i]))
}

/// Compares two texts with `==` of `str`, which holds exactly when both
/// have the same characters.
#[verifier::external_body]
pub(crate) fn same_text(a: &str, b: &str) -> (r: bool)
    ensures
        r == (a@ == b@),
{
    a == b
}

/// Makes the ASCII upper case of a text with `str::to_ascii_uppercase`,
/// which maps `a` to `z` to `A` to `Z` and leaves every other character
/// unchanged.
#[verifier::external_body]
pub(crate) fn to_ascii_upper(text: &str) -> (r: String)
    ensures
        r@ == ascii_upper(text@),
{
    text.to_ascii_uppercase()
}

} // verus!
