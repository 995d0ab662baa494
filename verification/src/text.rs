//! Small string building blocks shared by the formatting code.

use vstd::prelude::*;

verus! {

/// Appends one character to a `String` (std's `String::push`).
///
/// Trusted: std documents that `push` appends the given `char` to the end of
/// the string; the contract states exactly that over the character views.
#[verifier::external_body]
pub(crate) fn push_char(s: &mut String, c: char)
    ensures
        final(s)@ == old(s)@.push(c),
{
    s.push(c);
}

/// The characters of a string slice, in order.
pub(crate) fn chars_of(s: &str) -> (cs: Vec<char>)
    ensures
        cs@ == s@,
{
    let mut cs: Vec<char> = Vec::new();
    for c in it: s.chars()
        invariant
            cs@ == it.seq().take(it.index() as int),
    {
        cs.push(c);
    }
    cs
}

} // verus!
