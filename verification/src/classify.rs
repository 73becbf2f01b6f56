//! Which encoding class a buffer belongs to.

use crate::encoding::is_ascii_bytes;
use crate::encoding::{
    decode_code_points, lemma_ascii_is_utf8, lemma_ascii_text, lemma_count_bound,
    lemma_surrogate_is_not_utf8, lemma_utf8_is_wtf8, scalars, valid_wtf8, widen,
};
use crate::codepoint::is_surrogate;
use crate::kind::StrKind;
use crate::wtf8::{Wtf8, Wtf8Buf};
use vstd::prelude::*;
use vstd::string::StringSliceAdditionalSpecFns;
use vstd::utf8::*;

verus! {

broadcast use vstd::utf8::group_utf8_lib;

/// The bytes are valid as a text of class `kind`.
pub open spec fn valid_for(bytes: Seq<u8>, kind: StrKind) -> bool {
    match kind {
        StrKind::Ascii => is_ascii_bytes(bytes),
        StrKind::Utf8 => valid_utf8(bytes),
        StrKind::Wtf8 => valid_wtf8(bytes),
    }
}

/// The least class in which the bytes of a buffer can be read: `Ascii` if
/// every byte is below `0x80`, else `Utf8` if they are valid UTF-8, else
/// `Wtf8`.
pub open spec fn classify(bytes: Seq<u8>) -> StrKind {
    if is_ascii_bytes(bytes) {
        StrKind::Ascii
    } else if valid_utf8(bytes) {
        StrKind::Utf8
    } else {
        StrKind::Wtf8
    }
}

/// Bytes that are valid for a class are valid for every higher class.
pub proof fn lemma_valid_for_higher(bytes: Seq<u8>, low: StrKind, high: StrKind)
    requires
        valid_for(bytes, low),
        low.rank() <= high.rank(),
    ensures
        valid_for(bytes, high),
{
    if low == StrKind::Ascii {
        lemma_ascii_is_utf8(bytes);
    }
    if valid_utf8(bytes) {
        lemma_utf8_is_wtf8(bytes);
    }
}

/// A buffer is valid for its class, and for no class below it.
pub proof fn lemma_classify_least(bytes: Seq<u8>, kind: StrKind)
    requires
        valid_wtf8(bytes),
    ensures
        valid_for(bytes, classify(bytes)),
        valid_for(bytes, kind) <==> classify(bytes).rank() <= kind.rank(),
{
    if is_ascii_bytes(bytes) {
        lemma_ascii_is_utf8(bytes);
    }
    if valid_utf8(bytes) {
        lemma_utf8_is_wtf8(bytes);
    }
}

/// The class by content: all bytes ASCII gives `Ascii`, other valid UTF-8
/// gives `Utf8`, anything else gives `Wtf8`.
pub proof fn lemma_classify_by_content(bytes: Seq<u8>)
    ensures
        is_ascii_bytes(bytes) ==> classify(bytes) == StrKind::Ascii,
        valid_utf8(bytes) && !is_ascii_bytes(bytes) ==> classify(bytes) == StrKind::Utf8,
        !valid_utf8(bytes) ==> classify(bytes) == StrKind::Wtf8,
{
    if is_ascii_bytes(bytes) {
        lemma_ascii_is_utf8(bytes);
    }
}

/// The code points of a buffer are what reading it in its own class gives:
/// one per byte for `Ascii`, the characters of the text for `Utf8`.
pub proof fn lemma_code_points_by_class(bytes: Seq<u8>, kind: StrKind)
    requires
        valid_for(bytes, kind),
    ensures
        kind == StrKind::Ascii ==> decode_code_points(bytes) == widen(bytes),
        kind != StrKind::Wtf8 ==> decode_code_points(bytes) == scalars(decode_utf8(bytes)),
        decode_code_points(bytes).len() <= bytes.len(),
{
    if kind == StrKind::Ascii {
        lemma_ascii_is_utf8(bytes);
    }
    if valid_utf8(bytes) {
        lemma_utf8_is_wtf8(bytes);
    }
    lemma_count_bound(bytes);
}

/// A buffer that holds a lone surrogate is of class `Wtf8`.
pub proof fn lemma_surrogate_classifies_wtf8(bytes: Seq<u8>, i: int)
    requires
        valid_wtf8(bytes),
        0 <= i < decode_code_points(bytes).len(),
        is_surrogate(decode_code_points(bytes)[i]),
    ensures
        classify(bytes) == StrKind::Wtf8,
{
    lemma_surrogate_is_not_utf8(bytes, i);
    if is_ascii_bytes(bytes) {
        lemma_ascii_is_utf8(bytes);
    }
}

/// Text classifies as `Ascii` or `Utf8`: as `Ascii` exactly when all of its
/// characters are ASCII.
pub proof fn lemma_classify_text(text: Seq<char>)
    ensures
        classify(encode_utf8(text)) == if is_ascii_chars(text) {
            StrKind::Ascii
        } else {
            StrKind::Utf8
        },
{
    lemma_ascii_text(text);
    encode_utf8_valid_utf8(text);
}

/// Things that hold encoded text and can tell its class.
pub trait DeduceStrKind {
    /// The encoded bytes.
    spec fn encoded(&self) -> Seq<u8>;

    /// The least class in which the bytes can be read.
    fn str_kind(&self) -> (kind: StrKind)
        ensures
            kind == classify(self.encoded()),
    ;
}

impl DeduceStrKind for str {
    open spec fn encoded(&self) -> Seq<u8> {
        self.spec_bytes()
    }

    fn str_kind(&self) -> (kind: StrKind) {
        proof {
            lemma_classify_text(self@);
        }
        if self.is_ascii() {
            StrKind::Ascii
        } else {
            StrKind::Utf8
        }
    }
}

impl<'a> DeduceStrKind for Wtf8<'a> {
    open spec fn encoded(&self) -> Seq<u8> {
        self.spec_bytes()
    }

    fn str_kind(&self) -> (kind: StrKind) {
        if self.is_ascii() {
            StrKind::Ascii
        } else if self.is_utf8() {
            StrKind::Utf8
        } else {
            StrKind::Wtf8
        }
    }
}

impl DeduceStrKind for String {
    open spec fn encoded(&self) -> Seq<u8> {
        encode_utf8(self@)
    }

    fn str_kind(&self) -> (kind: StrKind) {
        self.as_str().str_kind()
    }
}

impl DeduceStrKind for Wtf8Buf {
    open spec fn encoded(&self) -> Seq<u8> {
        self.spec_bytes()
    }

    fn str_kind(&self) -> (kind: StrKind) {
        self.as_wtf8().str_kind()
    }
}

impl<T: DeduceStrKind + ?Sized> DeduceStrKind for &T {
    open spec fn encoded(&self) -> Seq<u8> {
        (**self).encoded()
    }

    fn str_kind(&self) -> (kind: StrKind) {
        (**self).str_kind()
    }
}

impl<T: DeduceStrKind + ?Sized> DeduceStrKind for Box<T> {
    open spec fn encoded(&self) -> Seq<u8> {
        (**self).encoded()
    }

    fn str_kind(&self) -> (kind: StrKind) {
        (**self).str_kind()
    }
}

} // verus!
