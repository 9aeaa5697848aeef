//! What the string routines need of `String` beyond what vstd states.
use vstd::prelude::*;

verus! {

/// `String::push`: appends the character `c` to the end of the string.
pub assume_specification[ String::push ](s: &mut String, c: char)
    ensures
        final(s)@ == old(s)@.push(c),
;

} // verus!
