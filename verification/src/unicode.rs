//! Letter case, as the standard library's Unicode tables define it.
//!
//! The tables are far too large to restate, so the two functions used here
//! are known to the proofs by name only: the same input always gives the
//! same answer, and nothing more is assumed about them.

use vstd::prelude::*;

verus! {

/// Whether `c` has the Unicode property `Uppercase`, as `char::is_uppercase`
/// reports it.
pub uninterp spec fn is_uppercase_letter(c: char) -> bool;

/// The lower-case form of `text`, as `str::to_lowercase` computes it.
pub uninterp spec fn lowercase(text: Seq<char>) -> Seq<char>;

/// Tells whether `c` is an upper-case letter.
///
/// Trusted: the body is `char::is_uppercase`, whose answer depends on `c`
/// alone; the contract only names that answer.
#[verifier::external_body]
pub(crate) fn is_uppercase(c: char) -> (upper: bool)
    ensures
        upper == is_uppercase_letter(c),
{
    c.is_uppercase()
}

/// Returns `text` in lower case.
///
/// Trusted: the body is `str::to_lowercase`, whose result depends on `text`
/// alone; the contract only names that result.
#[verifier::external_body]
pub(crate) fn to_lowercase(text: &str) -> (lowered: String)
    ensures
        lowered@ == lowercase(text@),
{
    text.to_lowercase()
}

} // verus!
