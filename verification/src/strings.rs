//! growing a `String` by one char, which vstd leaves unspecified.

use vstd::prelude::*;

verus! {

/// `String::push`: appends the char `c` to `s`
#[verifier::external_body]
pub(crate) fn push_char(s: &mut String, c: char)
    ensures
        final(s)@ == old(s)@.push(c),
{
    s.push(c)
}

} // verus!
