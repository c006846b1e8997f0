//! Contracts for the two standard-library functions this crate needs beyond
//! what vstd already specifies.

use vstd::prelude::*;

verus! {

/// Relies on `alloc::string::String::push`: appends the given character to the
/// end of the string.
pub assume_specification[ String::push ](s: &mut String, ch: char)
    ensures
        final(s)@ == old(s)@.push(ch),
;

/// Relies on `core::char::from_u32`: converts a `u32` to a `char`, returning
/// `Some` exactly when the value is a Unicode scalar value, that is, neither a
/// surrogate (0xD800..=0xDFFF) nor above 0x10FFFF.
pub assume_specification[ char::from_u32 ](i: u32) -> (r: Option<char>)
    ensures
        (0xD800 <= i < 0xE000 || i > 0x10FFFF) <==> r is None,
        r matches Some(c) ==> c as u32 == i,
;

} // verus!
