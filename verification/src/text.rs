//! Small trusted bridges between `String` values and `Vec<char>` buffers,
//! and the canonical upper-casing of HTTP method names.

use vstd::prelude::*;

verus! {

/// What `str::to_uppercase` returns for a given character sequence.
pub uninterp spec fn upper_of(s: Seq<char>) -> Seq<char>;

/// Relies on `str::to_uppercase`: the uppercase equivalent of the string,
/// which depends on its characters alone; it is empty exactly when the
/// input is empty, since every character maps to at least one character.
#[verifier::external_body]
pub fn to_upper(s: &str) -> (r: String)
    ensures
        r@ == upper_of(s@),
        s@.len() == 0 <==> r@.len() == 0,
{
    s.to_uppercase()
}

/// Relies on `str::chars`: it yields the characters of the string in order.
#[verifier::external_body]
pub fn chars_of(s: &str) -> (r: Vec<char>)
    ensures
        r@ == s@,
{
    s.chars().collect()
}

/// Relies on `String`'s `FromIterator<char>`: collecting characters builds
/// the string holding exactly those characters in order.
#[verifier::external_body]
pub fn string_of(v: &Vec<char>) -> (r: String)
    ensures
        r@ == v@,
{
    v.iter().collect()
}

} // verus!
