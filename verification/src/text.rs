//! Contracts for the few operations on text that the standard library
//! provides and the verifier has no description of.

use vstd::prelude::*;

verus! {

/// `String::push` appends one character to the end of the string and leaves
/// what was there before untouched. Trusted: the standard library's code is
/// not verified here.
pub assume_specification[ String::push ](text: &mut String, ch: char)
    ensures
        final(text)@ == old(text)@.push(ch),
;

/// The code points that are characters: all up to 0x10FFFF but the
/// surrogates.
pub open spec fn is_scalar(value: u32) -> bool {
    value <= 0xD7FF || 0xE000 <= value <= 0x10FFFF
}

/// `char::from_u32` gives the character with the code point `value`, and
/// `None` exactly for the values that are no character: the surrogates and
/// everything above 0x10FFFF. Trusted: the standard library's code is not
/// verified here.
pub assume_specification[ char::from_u32 ](value: u32) -> (result: Option<char>)
    ensures
        result == if is_scalar(value) {
            Some(value as char)
        } else {
            None
        },
;

/// The characters that count as white space: those with the Unicode
/// property White_Space.
pub open spec fn is_white_space(c: char) -> bool {
    let code = c as u32;
    ||| 0x0009 <= code <= 0x000D
    ||| code == 0x0020
    ||| code == 0x0085
    ||| code == 0x00A0
    ||| code == 0x1680
    ||| 0x2000 <= code <= 0x200A
    ||| code == 0x2028
    ||| code == 0x2029
    ||| code == 0x202F
    ||| code == 0x205F
    ||| code == 0x3000
}

/// Whether `c` is white space.
pub fn is_whitespace(c: char) -> (blank: bool)
    ensures
        blank == is_white_space(c),
{
    let code = c as u32;
    (0x0009 <= code && code <= 0x000D) || code == 0x0020 || code == 0x0085 || code == 0x00A0
        || code == 0x1680 || (0x2000 <= code && code <= 0x200A) || code == 0x2028 || code
        == 0x2029 || code == 0x202F || code == 0x205F || code == 0x3000
}

} // verus!
