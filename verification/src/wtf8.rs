//! Buffers in the permissive encoding: a borrowed view and an owned buffer.

use crate::encoding::is_ascii_bytes;
use crate::codepoint::{is_surrogate, CodePoint};
use crate::encoding::{
    decode_code_points, encode_code_point, lemma_decode_empty, lemma_encode_code_point,
    lemma_first_code_point, lemma_no_surrogate_is_utf8, lemma_surrogate_is_not_utf8,
    lemma_utf8_is_wtf8, no_surrogate, scalars, valid_wtf8, well_formed,
};
use crate::scan::{count_code_points, decode_at, encode_into, is_ascii, is_valid_wtf8};
use crate::stdlib::{str_from_utf8, string_into_bytes};
use vstd::prelude::*;
use vstd::string::StringSliceAdditionalSpecFns;
use vstd::utf8::*;

verus! {

broadcast use vstd::utf8::group_utf8_lib;

/// Whether a well-formed buffer holds no surrogate, that is, whether it is
/// valid UTF-8.
pub fn holds_no_surrogate(bytes: &[u8]) -> (r: bool)
    requires
        well_formed(bytes@),
    ensures
        r == valid_utf8(bytes@),
        r == no_surrogate(decode_code_points(bytes@)),
{
    let mut at: usize = 0;
    let ghost mut n: int = 0;
    proof {
        assert(bytes@.skip(0) == bytes@);
        assert(decode_code_points(bytes@).skip(0) == decode_code_points(bytes@));
    }
    while at < bytes.len()
        invariant
            at <= bytes.len(),
            well_formed(bytes@),
            well_formed(bytes@.skip(at as int)),
            0 <= n <= decode_code_points(bytes@).len(),
            decode_code_points(bytes@.skip(at as int)) == decode_code_points(bytes@).skip(n),
            forall|j: int| 0 <= j < n ==> !is_surrogate(#[trigger] decode_code_points(bytes@)[j]),
        decreases bytes.len() - at,
    {
        let ghost cps = decode_code_points(bytes@);
        proof {
            lemma_first_code_point(bytes@.skip(at as int));
            let w = length_of_first_codepoint(bytes@.skip(at as int));
            assert(bytes@.skip(at as int).skip(w) == bytes@.skip(at + w));
            assert(cps.skip(n).skip(1) == cps.skip(n + 1));
            assert(decode_code_points(bytes@.skip(at + w)) == decode_code_points(
                bytes@.skip(at as int),
            ).skip(1));
            assert(cps.skip(n)[0] == cps[n]);
        }
        let (code, width) = decode_at(bytes, at);
        if 0xD800 <= code && code <= 0xDFFF {
            proof {
                lemma_surrogate_is_not_utf8(bytes@, n);
            }
            return false;
        }
        at += width;
        proof {
            n = n + 1;
        }
    }
    proof {
        lemma_decode_empty(bytes@.skip(at as int));
        assert(n == decode_code_points(bytes@).len());
        lemma_no_surrogate_is_utf8(bytes@);
    }
    true
}

/// A borrowed buffer in the permissive encoding. Its view is the sequence of
/// its code points.
#[derive(Debug, Copy, Clone)]
pub struct Wtf8<'a> {
    bytes: &'a [u8],
}

impl<'a> View for Wtf8<'a> {
    type V = Seq<u32>;

    open spec fn view(&self) -> Seq<u32> {
        decode_code_points(self.spec_bytes())
    }
}

impl<'a> Wtf8<'a> {
    #[verifier::type_invariant]
    spec fn valid(self) -> bool {
        valid_wtf8(self.bytes@)
    }

    /// The bytes of the buffer.
    pub closed spec fn spec_bytes(self) -> Seq<u8> {
        self.bytes@
    }

    /// A text as a buffer: the same bytes.
    pub fn from_str(text: &'a str) -> (w: Wtf8<'a>)
        ensures
            w.spec_bytes() == text.spec_bytes(),
            w@ == scalars(text@),
    {
        let bytes: &'a [u8] = text.as_bytes();
        proof {
            lemma_utf8_is_wtf8(bytes@);
        }
        Wtf8 { bytes }
    }

    /// The bytes as a buffer, if they are valid in the permissive encoding.
    pub fn from_bytes(bytes: &'a [u8]) -> (r: Option<Wtf8<'a>>)
        ensures
            r is Some <==> valid_wtf8(bytes@),
            r matches Some(w) ==> w.spec_bytes() == bytes@,
    {
        if is_valid_wtf8(bytes) {
            Some(Wtf8 { bytes })
        } else {
            None
        }
    }

    /// Bytes that are known to be valid as a buffer.
    pub fn from_bytes_unchecked(bytes: &'a [u8]) -> (w: Wtf8<'a>)
        requires
            valid_wtf8(bytes@),
        ensures
            w.spec_bytes() == bytes@,
            w@ == decode_code_points(bytes@),
    {
        Wtf8 { bytes }
    }

    /// The bytes of the buffer. They are valid in the permissive encoding.
    pub fn as_bytes(&self) -> (bytes: &'a [u8])
        ensures
            bytes@ == self.spec_bytes(),
            valid_wtf8(bytes@),
            self@ == decode_code_points(bytes@),
    {
        proof {
            use_type_invariant(self);
        }
        self.bytes
    }

    /// Length in bytes.
    pub fn len(&self) -> (n: usize)
        ensures
            n == self.spec_bytes().len(),
    {
        self.bytes.len()
    }

    /// Whether the buffer has no bytes, and so no code points.
    pub fn is_empty(&self) -> (b: bool)
        ensures
            b == (self.spec_bytes().len() == 0),
            b == (self@.len() == 0),
    {
        proof {
            use_type_invariant(self);
            if self.bytes@.len() == 0 {
                lemma_decode_empty(self.bytes@);
            } else {
                lemma_first_code_point(self.bytes@);
            }
        }
        self.bytes.len() == 0
    }

    /// Whether every byte is below `0x80`.
    pub fn is_ascii(&self) -> (b: bool)
        ensures
            b == is_ascii_bytes(self.spec_bytes()),
    {
        is_ascii(self.bytes)
    }

    /// Whether the buffer is valid UTF-8, that is, holds no surrogate.
    pub fn is_utf8(&self) -> (b: bool)
        ensures
            b == valid_utf8(self.spec_bytes()),
            b == no_surrogate(self@),
    {
        proof {
            use_type_invariant(self);
        }
        holds_no_surrogate(self.bytes)
    }

    /// The buffer as text, if it is valid UTF-8.
    pub fn as_str(&self) -> (r: Option<&'a str>)
        ensures
            r is Some <==> valid_utf8(self.spec_bytes()),
            r matches Some(text) ==> text.spec_bytes() == self.spec_bytes() && scalars(text@)
                == self@,
    {
        let r = str_from_utf8(self.bytes);
        proof {
            if let Some(text) = r {
                lemma_utf8_is_wtf8(self.bytes@);
            }
        }
        r
    }

    /// Number of code points.
    pub fn code_point_count(&self) -> (n: usize)
        ensures
            n == self@.len(),
    {
        proof {
            use_type_invariant(self);
        }
        count_code_points(self.bytes)
    }
}

/// An owned buffer in the permissive encoding. Its view is the sequence of
/// its code points.
#[derive(Debug)]
pub struct Wtf8Buf {
    bytes: Vec<u8>,
}

impl Clone for Wtf8Buf {
    fn clone(&self) -> (w: Wtf8Buf)
        ensures
            w.spec_bytes() == self.spec_bytes(),
            w@ == self@,
    {
        proof {
            use_type_invariant(self);
        }
        let bytes: Vec<u8> = self.bytes.clone();
        assert(bytes@ =~= self.bytes@);
        Wtf8Buf { bytes }
    }
}

impl View for Wtf8Buf {
    type V = Seq<u32>;

    open spec fn view(&self) -> Seq<u32> {
        decode_code_points(self.spec_bytes())
    }
}

impl Wtf8Buf {
    #[verifier::type_invariant]
    spec fn valid(self) -> bool {
        valid_wtf8(self.bytes@)
    }

    /// The bytes of the buffer.
    pub closed spec fn spec_bytes(self) -> Seq<u8> {
        self.bytes@
    }

    /// The empty buffer.
    pub fn new() -> (w: Wtf8Buf)
        ensures
            w.spec_bytes() == Seq::<u8>::empty(),
            w@ == Seq::<u32>::empty(),
    {
        let bytes: Vec<u8> = Vec::new();
        proof {
            lemma_decode_empty(bytes@);
        }
        Wtf8Buf { bytes }
    }

    /// A text as a buffer: the same bytes.
    pub fn from_string(text: String) -> (w: Wtf8Buf)
        ensures
            w.spec_bytes() == encode_utf8(text@),
            w@ == scalars(text@),
    {
        let bytes: Vec<u8> = string_into_bytes(text);
        proof {
            lemma_utf8_is_wtf8(bytes@);
        }
        Wtf8Buf { bytes }
    }

    /// The buffer that holds the one code point `code`.
    pub fn from_code_point(code: CodePoint) -> (w: Wtf8Buf)
        ensures
            w.spec_bytes() == encode_code_point(code@),
            w@ == seq![code@],
    {
        let mut bytes: Vec<u8> = Vec::new();
        let v: u32 = code.to_u32();
        encode_into(v, &mut bytes);
        proof {
            lemma_encode_code_point(v);
            assert(bytes@ == encode_code_point(v));
        }
        Wtf8Buf { bytes }
    }

    /// The bytes as a buffer, if they are valid in the permissive encoding.
    pub fn from_bytes(bytes: Vec<u8>) -> (r: Option<Wtf8Buf>)
        ensures
            r is Some <==> valid_wtf8(bytes@),
            r matches Some(w) ==> w.spec_bytes() == bytes@,
    {
        if is_valid_wtf8(bytes.as_slice()) {
            Some(Wtf8Buf { bytes })
        } else {
            None
        }
    }

    /// Bytes that are known to be valid as a buffer.
    pub fn from_bytes_unchecked(bytes: Vec<u8>) -> (w: Wtf8Buf)
        requires
            valid_wtf8(bytes@),
        ensures
            w.spec_bytes() == bytes@,
            w@ == decode_code_points(bytes@),
    {
        Wtf8Buf { bytes }
    }

    /// The buffer as a borrowed view.
    pub fn as_wtf8(&self) -> (w: Wtf8<'_>)
        ensures
            w.spec_bytes() == self.spec_bytes(),
            w@ == self@,
            valid_wtf8(self.spec_bytes()),
    {
        proof {
            use_type_invariant(self);
        }
        Wtf8 { bytes: self.bytes.as_slice() }
    }

    /// The bytes of the buffer. They are valid in the permissive encoding.
    pub fn as_bytes(&self) -> (bytes: &[u8])
        ensures
            bytes@ == self.spec_bytes(),
            valid_wtf8(bytes@),
            self@ == decode_code_points(bytes@),
    {
        proof {
            use_type_invariant(self);
        }
        self.bytes.as_slice()
    }

    /// The bytes of the buffer, given up by it.
    pub fn into_bytes(self) -> (bytes: Vec<u8>)
        ensures
            bytes@ == self.spec_bytes(),
            valid_wtf8(bytes@),
            self@ == decode_code_points(bytes@),
    {
        proof {
            use_type_invariant(&self);
        }
        self.bytes
    }

    /// Length in bytes.
    pub fn len(&self) -> (n: usize)
        ensures
            n == self.spec_bytes().len(),
    {
        self.bytes.len()
    }
}

} // verus!
