//! The alphanumeric character class used by the word-count mapper.
//!
//! The class comes from the standard library's Unicode tables; it is named
//! here and relied upon, not reimplemented.

use crate::text::is_space;
use vstd::prelude::*;

verus! {

/// Whether `char::is_alphanumeric` holds of `c`.
pub uninterp spec fn is_alphanumeric_char(c: char) -> bool;

/// Relies on `char::is_alphanumeric`: true exactly for the characters in the
/// Unicode `Alphabetic` class or in one of the number classes `Nd`, `Nl`,
/// `No`. The ASCII digits are alphanumeric, and no alphanumeric character is
/// an ASCII whitespace character.
#[verifier::external_body]
pub fn alphanumeric_char(c: char) -> (r: bool)
    ensures
        r == is_alphanumeric_char(c),
        r ==> !is_space(c),
        ('0' as u32) <= (c as u32) && (c as u32) <= ('9' as u32) ==> r,
{
    c.is_alphanumeric()
}

} // verus!
