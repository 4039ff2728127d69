//! Building text.

use vstd::prelude::*;

verus! {

/// Appends one character to a string: a contract for `String::push`, which
/// adds the character at the end and leaves the rest as it was.
#[verifier::external_body]
pub(crate) fn push_char(text: &mut String, c: char)
    ensures
        final(text)@ == old(text)@.push(c),
{
    text.push(c);
}

} // verus!
