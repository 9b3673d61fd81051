//! What is taken on trust from the standard library: the two functions that
//! the interpreter calls and for which `vstd` has no specification.

use vstd::prelude::*;

verus! {

/// Whether Unicode counts `c` as white space (`White_Space`): the answer of
/// `char::is_whitespace`.
pub uninterp spec fn is_white_space(c: char) -> bool;

/// `char::is_whitespace` depends on the character alone. What it answers is
/// what `is_white_space` stands for; nothing else is claimed of it.
pub assume_specification[ char::is_whitespace ](c: char) -> (b: bool)
    ensures
        b == is_white_space(c),
;

/// `String::push` appends the character to the end of the string and leaves
/// what was there in place.
pub assume_specification[ String::push ](s: &mut String, ch: char)
    ensures
        final(s)@ == old(s)@.push(ch),
;

} // verus!
