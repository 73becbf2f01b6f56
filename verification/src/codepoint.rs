//! Unicode code points, surrogates included.

use crate::ascii_types::{ascii_char_as_byte, ascii_char_byte};
use crate::stdlib::char_from_u32;
use ascii::AsciiChar;
use vstd::prelude::*;

verus! {

/// The largest Unicode code point.
pub const MAX_CODE_POINT: u32 = 0x10FFFF;

/// `v` is in the code space `0..=0x10FFFF`.
pub open spec fn is_code_point(v: u32) -> bool {
    v <= 0x10FFFF
}

/// `v` is a surrogate, leading or trailing.
pub open spec fn is_surrogate(v: u32) -> bool {
    0xD800 <= v <= 0xDFFF
}

/// `v` is a leading (high) surrogate.
pub open spec fn is_high_surrogate(v: u32) -> bool {
    0xD800 <= v <= 0xDBFF
}

/// `v` is a trailing (low) surrogate.
pub open spec fn is_low_surrogate(v: u32) -> bool {
    0xDC00 <= v <= 0xDFFF
}

/// `v` is a scalar value: a code point that is no surrogate.
pub open spec fn is_scalar_value(v: u32) -> bool {
    is_code_point(v) && !is_surrogate(v)
}

/// Number of bytes that the code point `v` takes in the buffer encoding.
pub open spec fn encoded_len(v: u32) -> nat {
    if v < 0x80 {
        1
    } else if v < 0x800 {
        2
    } else if v < 0x10000 {
        3
    } else {
        4
    }
}

/// A Unicode code point: any value in `0..=0x10FFFF`. Unlike `char` it may
/// be a surrogate.
#[derive(Debug, Copy, Clone, PartialEq, Eq, Structural, PartialOrd, Ord, Hash)]
pub struct CodePoint {
    value: u32,
}

impl View for CodePoint {
    type V = u32;

    closed spec fn view(&self) -> u32 {
        self.value
    }
}

impl CodePoint {
    #[verifier::type_invariant]
    spec fn in_code_space(self) -> bool {
        is_code_point(self.value)
    }

    /// The code point with number `value`, or `None` above `0x10FFFF`.
    pub fn from_u32(value: u32) -> (r: Option<CodePoint>)
        ensures
            r is Some <==> is_code_point(value),
            r matches Some(c) ==> c@ == value,
    {
        if value <= MAX_CODE_POINT {
            Some(CodePoint { value })
        } else {
            None
        }
    }

    /// The code point of a `char`.
    pub fn from_char(c: char) -> (r: CodePoint)
        ensures
            r@ == c as u32,
            is_scalar_value(r@),
    {
        CodePoint { value: c as u32 }
    }

    /// The code point of an ASCII character.
    pub fn from_ascii_char(ch: AsciiChar) -> (r: CodePoint)
        ensures
            r@ == ascii_char_byte(ch),
            r@ < 0x80,
    {
        let b: u8 = ascii_char_as_byte(ch);
        CodePoint { value: b as u32 }
    }

    /// The number of this code point.
    pub fn to_u32(self) -> (v: u32)
        ensures
            v == self@,
            is_code_point(v),
    {
        proof {
            use_type_invariant(self);
        }
        self.value
    }

    /// The `char` with this number; `None` for a surrogate.
    pub fn to_char(self) -> (r: Option<char>)
        ensures
            is_code_point(self@),
            r is Some <==> !is_surrogate(self@),
            r matches Some(c) ==> c as u32 == self@,
    {
        proof {
            use_type_invariant(self);
        }
        char_from_u32(self.value)
    }

    /// Whether this code point is below `0x80`.
    pub fn is_ascii(self) -> (b: bool)
        ensures
            b == (self@ < 0x80),
    {
        self.value < 0x80
    }

    /// Whether this code point is a surrogate.
    pub fn is_surrogate(self) -> (b: bool)
        ensures
            b == is_surrogate(self@),
    {
        0xD800 <= self.value && self.value <= 0xDFFF
    }

    /// Number of bytes this code point takes in a buffer.
    pub fn len_wtf8(self) -> (n: usize)
        ensures
            n == encoded_len(self@),
    {
        if self.value < 0x80 {
            1
        } else if self.value < 0x800 {
            2
        } else if self.value < 0x10000 {
            3
        } else {
            4
        }
    }
}

} // verus!
