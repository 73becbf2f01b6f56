//! The text container: an encoded buffer, its encoding class, and a cache
//! for its length in characters.

use crate::ascii_types::{
    ascii_char_as_byte, ascii_char_byte, ascii_char_from_char, ascii_str_as_bytes,
    ascii_str_bytes, ascii_str_from_bytes, ascii_str_index,
};
use crate::classify::{
    classify, lemma_classify_least, lemma_classify_text, valid_for, DeduceStrKind,
};
use crate::codepoint::{is_scalar_value, CodePoint};
use crate::encoding::{
    decode_code_points, encode_code_point, lemma_ascii_is_utf8, lemma_encode_code_point,
    lemma_utf8_is_wtf8, scalars, valid_wtf8, widen,
};
use crate::kind::StrKind;
use crate::scan::nth_code_point;
use crate::stdlib::{boxed_str_into_string, str_from_utf8};
use crate::wtf8::{Wtf8, Wtf8Buf};
use ascii::{AsciiChar, AsciiStr};
use vstd::prelude::*;
use vstd::slice::slice_to_vec;
use vstd::string::{StrSliceExecFns, StringSliceAdditionalSpecFns};
use vstd::utf8::*;

verus! {

broadcast use vstd::utf8::group_utf8_lib;

/// What the length cache holds while the length has not been counted. No
/// buffer that fits in memory has this many characters.
pub const UNCOMPUTED: usize = usize::MAX;

/// The buffer of a container seen through its class: exactly one of the
/// three forms.
#[derive(Debug)]
pub enum PyKindStr<'a> {
    Ascii(&'a AsciiStr),
    Utf8(&'a str),
    Wtf8(Wtf8<'a>),
}

/// A length in characters, or `UNCOMPUTED`.
#[derive(Debug, Clone, Copy)]
struct StrLen {
    count: usize,
}

impl StrLen {
    fn from(value: usize) -> (len: StrLen)
        ensures
            len.count == value,
    {
        StrLen { count: value }
    }

    fn zero() -> (len: StrLen)
        ensures
            len.count == 0,
    {
        StrLen::from(0)
    }

    fn uncomputed() -> (len: StrLen)
        ensures
            len.count == UNCOMPUTED,
    {
        StrLen::from(UNCOMPUTED)
    }
}

/// An immutable text with its encoding class. The view is the sequence of
/// its code points.
///
/// The bytes are always valid for the class. The length cache holds
/// `UNCOMPUTED` or the number of code points.
#[derive(Debug)]
pub struct StrData {
    data: Wtf8Buf,
    kind: StrKind,
    len: StrLen,
}

impl View for StrData {
    type V = Seq<u32>;

    open spec fn view(&self) -> Seq<u32> {
        decode_code_points(self.spec_bytes())
    }
}

impl Clone for StrData {
    fn clone(&self) -> (copy: StrData)
        ensures
            copy@ == self@,
            copy.spec_bytes() == self.spec_bytes(),
            copy.spec_kind() == self.spec_kind(),
            copy.cached() == self.cached(),
    {
        proof {
            use_type_invariant(self);
        }
        StrData { data: self.data.clone(), kind: self.kind, len: self.len }
    }
}

impl Default for StrData {
    /// The empty text, of class `Ascii`.
    fn default() -> (empty: StrData)
        ensures
            empty@ == Seq::<u32>::empty(),
            empty.spec_bytes() == Seq::<u8>::empty(),
            empty.spec_kind() == StrKind::Ascii,
            empty.cached() == 0,
    {
        StrData { data: Wtf8Buf::new(), kind: StrKind::Ascii, len: StrLen::zero() }
    }
}

impl From<Wtf8Buf> for StrData {
    /// The container for a buffer. The buffer is classified; its length is
    /// known at once for `Ascii` only.
    fn from(value: Wtf8Buf) -> (s: StrData)
        ensures
            s@ == value@,
            s.spec_bytes() == value.spec_bytes(),
            s.spec_kind() == classify(value.spec_bytes()),
            s.cached() == if classify(value.spec_bytes()) == StrKind::Ascii {
                value.spec_bytes().len() as usize
            } else {
                UNCOMPUTED
            },
    {
        StrData::from_wtf8(value)
    }
}

impl vstd::std_specs::convert::FromSpecImpl<Wtf8Buf> for StrData {
    open spec fn obeys_from_spec() -> bool {
        true
    }

    open spec fn from_spec(value: Wtf8Buf) -> StrData {
        StrData::spec_new(
            value,
            classify(value.spec_bytes()),
            if classify(value.spec_bytes()) == StrKind::Ascii {
                value.spec_bytes().len() as usize
            } else {
                UNCOMPUTED
            },
        )
    }
}

impl From<Box<str>> for StrData {
    /// The container for a text. The text is classified; its length is
    /// known at once for `Ascii` only.
    fn from(value: Box<str>) -> (s: StrData)
        ensures
            s@ == scalars(value@),
            s.spec_bytes() == encode_utf8(value@),
            s.spec_kind() == classify(encode_utf8(value@)),
            s.cached() == if classify(encode_utf8(value@)) == StrKind::Ascii {
                encode_utf8(value@).len() as usize
            } else {
                UNCOMPUTED
            },
    {
        StrData::from_boxed_str(value)
    }
}

impl vstd::std_specs::convert::FromSpecImpl<Box<str>> for StrData {
    open spec fn obeys_from_spec() -> bool {
        false
    }

    open spec fn from_spec(value: Box<str>) -> StrData {
        arbitrary()
    }
}

impl From<Box<AsciiStr>> for StrData {
    /// The container for an ASCII text, with its length.
    fn from(value: Box<AsciiStr>) -> (s: StrData)
        ensures
            s@ == widen(ascii_str_bytes(&*value)),
            s.spec_bytes() == ascii_str_bytes(&*value),
            s.spec_kind() == StrKind::Ascii,
            s.cached() == ascii_str_bytes(&*value).len(),
    {
        StrData::from_boxed_ascii(value)
    }
}

impl vstd::std_specs::convert::FromSpecImpl<Box<AsciiStr>> for StrData {
    open spec fn obeys_from_spec() -> bool {
        false
    }

    open spec fn from_spec(value: Box<AsciiStr>) -> StrData {
        arbitrary()
    }
}

impl From<AsciiChar> for StrData {
    /// The container for one ASCII character.
    fn from(ch: AsciiChar) -> (s: StrData)
        ensures
            s@ == seq![ascii_char_byte(ch) as u32],
            s.spec_bytes() == seq![ascii_char_byte(ch)],
            s.spec_kind() == StrKind::Ascii,
            s.cached() == 1,
    {
        StrData::from_ascii_char(ch)
    }
}

impl vstd::std_specs::convert::FromSpecImpl<AsciiChar> for StrData {
    open spec fn obeys_from_spec() -> bool {
        false
    }

    open spec fn from_spec(ch: AsciiChar) -> StrData {
        arbitrary()
    }
}

impl From<char> for StrData {
    /// The container for one character: of class `Ascii` if the character
    /// is ASCII, else of class `Utf8`. Its length is 1.
    fn from(ch: char) -> (s: StrData)
        ensures
            s@ == seq![ch as u32],
            s.spec_bytes() == encode_code_point(ch as u32),
            s.spec_kind() == if (ch as u32) < 0x80 {
                StrKind::Ascii
            } else {
                StrKind::Utf8
            },
            s.cached() == 1,
    {
        StrData::from_char(ch)
    }
}

impl vstd::std_specs::convert::FromSpecImpl<char> for StrData {
    open spec fn obeys_from_spec() -> bool {
        false
    }

    open spec fn from_spec(ch: char) -> StrData {
        arbitrary()
    }
}

impl From<CodePoint> for StrData {
    /// The container for one code point: as for a character if the code
    /// point is one, else of class `Wtf8`. Its length is 1.
    fn from(ch: CodePoint) -> (s: StrData)
        ensures
            s@ == seq![ch@],
            s.spec_bytes() == encode_code_point(ch@),
            s.spec_kind() == if ch@ < 0x80 {
                StrKind::Ascii
            } else if is_scalar_value(ch@) {
                StrKind::Utf8
            } else {
                StrKind::Wtf8
            },
            s.cached() == 1,
    {
        StrData::from_code_point(ch)
    }
}

impl vstd::std_specs::convert::FromSpecImpl<CodePoint> for StrData {
    open spec fn obeys_from_spec() -> bool {
        false
    }

    open spec fn from_spec(ch: CodePoint) -> StrData {
        arbitrary()
    }
}

impl StrData {
    #[verifier::type_invariant]
    spec fn well_formed(self) -> bool {
        &&& valid_for(self.data.spec_bytes(), self.kind)
        &&& (self.len.count == UNCOMPUTED || self.len.count == self.data@.len())
    }

    /// The encoded bytes.
    pub closed spec fn spec_bytes(self) -> Seq<u8> {
        self.data.spec_bytes()
    }

    /// The encoding class.
    pub closed spec fn spec_kind(self) -> StrKind {
        self.kind
    }

    /// What the length cache holds: `UNCOMPUTED` or the number of code
    /// points.
    pub closed spec fn cached(self) -> usize {
        self.len.count
    }

    /// The container with the given buffer, class and cache.
    pub closed spec fn spec_new(data: Wtf8Buf, kind: StrKind, cached: usize) -> StrData {
        StrData { data, kind, len: StrLen { count: cached } }
    }

    /// A container for `data`, which the caller knows to be valid for
    /// `kind`. Nothing is checked. The length is known at once for `Ascii`
    /// only.
    pub fn new_str_unchecked(data: Wtf8Buf, kind: StrKind) -> (s: StrData)
        requires
            valid_for(data.spec_bytes(), kind),
        ensures
            s == StrData::spec_new(
                data,
                kind,
                if kind == StrKind::Ascii {
                    data.spec_bytes().len() as usize
                } else {
                    UNCOMPUTED
                },
            ),
            s@ == data@,
            s.spec_bytes() == data.spec_bytes(),
            s.spec_kind() == kind,
            s.cached() == if kind == StrKind::Ascii {
                data.spec_bytes().len() as usize
            } else {
                UNCOMPUTED
            },
    {
        let len: StrLen = match kind {
            StrKind::Ascii => {
                proof {
                    lemma_ascii_is_utf8(data.spec_bytes());
                }
                StrLen::from(data.len())
            },
            _ => StrLen::uncomputed(),
        };
        StrData { data, kind, len }
    }

    /// A container for `data`, which the caller knows to be valid for `kind`
    /// and to hold `char_len` code points. Nothing is checked or counted.
    pub fn new_with_char_len(data: Wtf8Buf, kind: StrKind, char_len: usize) -> (s: StrData)
        requires
            valid_for(data.spec_bytes(), kind),
            char_len == data@.len(),
        ensures
            s@ == data@,
            s.spec_bytes() == data.spec_bytes(),
            s.spec_kind() == kind,
            s.cached() == char_len,
    {
        StrData { data, kind, len: StrLen::from(char_len) }
    }

    /// The container for a buffer. The buffer is classified; its length is
    /// known at once for `Ascii` only.
    pub fn from_wtf8(value: Wtf8Buf) -> (s: StrData)
        ensures
            s == StrData::spec_new(
                value,
                classify(value.spec_bytes()),
                if classify(value.spec_bytes()) == StrKind::Ascii {
                    value.spec_bytes().len() as usize
                } else {
                    UNCOMPUTED
                },
            ),
            s@ == value@,
            s.spec_bytes() == value.spec_bytes(),
            s.spec_kind() == classify(value.spec_bytes()),
            s.cached() == if classify(value.spec_bytes()) == StrKind::Ascii {
                value.spec_bytes().len() as usize
            } else {
                UNCOMPUTED
            },
    {
        let kind: StrKind = value.as_wtf8().str_kind();
        proof {
            lemma_classify_least(value.spec_bytes(), kind);
        }
        StrData::new_str_unchecked(value, kind)
    }

    /// The container for a text. The text is classified; its length is
    /// known at once for `Ascii` only.
    pub fn from_boxed_str(value: Box<str>) -> (s: StrData)
        ensures
            s@ == scalars(value@),
            s.spec_bytes() == encode_utf8(value@),
            s.spec_kind() == classify(encode_utf8(value@)),
            s.cached() == if classify(encode_utf8(value@)) == StrKind::Ascii {
                encode_utf8(value@).len() as usize
            } else {
                UNCOMPUTED
            },
    {
        let text: String = boxed_str_into_string(value);
        let kind: StrKind = text.str_kind();
        let data: Wtf8Buf = Wtf8Buf::from_string(text);
        proof {
            lemma_classify_text(value@);
        }
        StrData::new_str_unchecked(data, kind)
    }

    /// The container for an ASCII text, with its length.
    pub fn from_boxed_ascii(value: Box<AsciiStr>) -> (s: StrData)
        ensures
            s@ == widen(ascii_str_bytes(&*value)),
            s.spec_bytes() == ascii_str_bytes(&*value),
            s.spec_kind() == StrKind::Ascii,
            s.cached() == ascii_str_bytes(&*value).len(),
    {
        let bytes: Vec<u8> = slice_to_vec(ascii_str_as_bytes(&*value));
        let len: usize = bytes.len();
        proof {
            lemma_ascii_is_utf8(bytes@);
            lemma_utf8_is_wtf8(bytes@);
        }
        let data: Wtf8Buf = Wtf8Buf::from_bytes_unchecked(bytes);
        StrData { data, kind: StrKind::Ascii, len: StrLen::from(len) }
    }

    /// The container for one ASCII character.
    pub fn from_ascii_char(ch: AsciiChar) -> (s: StrData)
        ensures
            s@ == seq![ascii_char_byte(ch) as u32],
            s.spec_bytes() == seq![ascii_char_byte(ch)],
            s.spec_kind() == StrKind::Ascii,
            s.cached() == 1,
    {
        let mut bytes: Vec<u8> = Vec::new();
        bytes.push(ascii_char_as_byte(ch));
        proof {
            assert(bytes@ == seq![ascii_char_byte(ch)]);
            lemma_ascii_is_utf8(bytes@);
            lemma_utf8_is_wtf8(bytes@);
            assert(widen(bytes@) == seq![ascii_char_byte(ch) as u32]);
        }
        let data: Wtf8Buf = Wtf8Buf::from_bytes_unchecked(bytes);
        StrData { data, kind: StrKind::Ascii, len: StrLen::from(1) }
    }

    /// The container for one character: of class `Ascii` if the character
    /// is ASCII, else of class `Utf8`. Its length is 1.
    pub fn from_char(ch: char) -> (s: StrData)
        ensures
            s@ == seq![ch as u32],
            s.spec_bytes() == encode_code_point(ch as u32),
            s.spec_kind() == if (ch as u32) < 0x80 {
                StrKind::Ascii
            } else {
                StrKind::Utf8
            },
            s.cached() == 1,
    {
        match ascii_char_from_char(ch) {
            Some(ascii) => {
                let ghost v = ch as u32;
                proof {
                    assert(leading_byte_width_1(v) == v as u8) by (bit_vector)
                        requires
                            v < 0x80,
                    ;
                    assert(encode_code_point(v) == seq![ascii_char_byte(ascii)]);
                }
                StrData::from_ascii_char(ascii)
            },
            None => {
                let code: CodePoint = CodePoint::from_char(ch);
                let data: Wtf8Buf = Wtf8Buf::from_code_point(code);
                proof {
                    lemma_encode_code_point(ch as u32);
                }
                StrData { data, kind: StrKind::Utf8, len: StrLen::from(1) }
            },
        }
    }

    /// The container for one code point: as for a character if the code
    /// point is one, else of class `Wtf8`. Its length is 1.
    pub fn from_code_point(ch: CodePoint) -> (s: StrData)
        ensures
            s@ == seq![ch@],
            s.spec_bytes() == encode_code_point(ch@),
            s.spec_kind() == if ch@ < 0x80 {
                StrKind::Ascii
            } else if is_scalar_value(ch@) {
                StrKind::Utf8
            } else {
                StrKind::Wtf8
            },
            s.cached() == 1,
    {
        match ch.to_char() {
            Some(c) => StrData::from_char(c),
            None => {
                let data: Wtf8Buf = Wtf8Buf::from_code_point(ch);
                proof {
                    lemma_encode_code_point(ch@);
                }
                StrData { data, kind: StrKind::Wtf8, len: StrLen::from(1) }
            },
        }
    }

    /// The buffer in the permissive encoding. Every container has this form.
    pub fn as_wtf8(&self) -> (w: Wtf8<'_>)
        ensures
            w@ == self@,
            w.spec_bytes() == self.spec_bytes(),
            valid_wtf8(self.spec_bytes()),
    {
        self.data.as_wtf8()
    }

    /// The buffer as text, for the classes `Ascii` and `Utf8`.
    pub fn as_str(&self) -> (r: Option<&str>)
        ensures
            r is Some <==> self.spec_kind() != StrKind::Wtf8,
            r matches Some(text) ==> text.spec_bytes() == self.spec_bytes() && scalars(text@)
                == self@,
    {
        proof {
            use_type_invariant(self);
            if self.kind == StrKind::Ascii {
                lemma_ascii_is_utf8(self.data.spec_bytes());
            }
        }
        if self.kind.is_utf8() {
            let r = str_from_utf8(self.data.as_bytes());
            proof {
                lemma_utf8_is_wtf8(self.data.spec_bytes());
            }
            r
        } else {
            None
        }
    }

    /// The buffer as ASCII text, for the class `Ascii`.
    pub fn as_ascii(&self) -> (r: Option<&AsciiStr>)
        ensures
            r is Some <==> self.spec_kind() == StrKind::Ascii,
            r matches Some(text) ==> ascii_str_bytes(text) == self.spec_bytes(),
    {
        proof {
            use_type_invariant(self);
        }
        if self.kind.is_ascii() {
            ascii_str_from_bytes(self.data.as_bytes())
        } else {
            None
        }
    }

    /// The encoding class. The bytes are valid for it.
    pub fn kind(&self) -> (kind: StrKind)
        ensures
            kind == self.spec_kind(),
            valid_for(self.spec_bytes(), kind),
    {
        proof {
            use_type_invariant(self);
        }
        self.kind
    }

    /// The buffer in the form that belongs to its class.
    pub fn as_str_kind(&self) -> (r: PyKindStr<'_>)
        ensures
            match r {
                PyKindStr::Ascii(text) => self.spec_kind() == StrKind::Ascii && ascii_str_bytes(
                    text,
                ) == self.spec_bytes(),
                PyKindStr::Utf8(text) => self.spec_kind() == StrKind::Utf8 && text.spec_bytes()
                    == self.spec_bytes() && scalars(text@) == self@,
                PyKindStr::Wtf8(w) => self.spec_kind() == StrKind::Wtf8 && w.spec_bytes()
                    == self.spec_bytes() && w@ == self@,
            },
    {
        proof {
            use_type_invariant(self);
        }
        match self.kind {
            StrKind::Ascii => PyKindStr::Ascii(ascii_str_from_bytes(self.data.as_bytes()).unwrap()),
            StrKind::Utf8 => {
                proof {
                    lemma_utf8_is_wtf8(self.data.spec_bytes());
                }
                PyKindStr::Utf8(str_from_utf8(self.data.as_bytes()).unwrap())
            },
            StrKind::Wtf8 => PyKindStr::Wtf8(self.data.as_wtf8()),
        }
    }

    /// Length in bytes.
    pub fn len(&self) -> (n: usize)
        ensures
            n == self.spec_bytes().len(),
    {
        self.data.len()
    }

    /// Whether the text has no bytes, and so no characters.
    pub fn is_empty(&self) -> (b: bool)
        ensures
            b == (self.spec_bytes().len() == 0),
            b == (self@.len() == 0),
    {
        self.data.as_wtf8().is_empty()
    }

    /// The length in characters if the cache holds it.
    pub fn cached_char_len(&self) -> (r: Option<usize>)
        ensures
            r == if self.cached() == UNCOMPUTED {
                None
            } else {
                Some(self.cached())
            },
            r matches Some(n) ==> n == self@.len(),
    {
        proof {
            use_type_invariant(self);
        }
        if self.len.count == UNCOMPUTED {
            None
        } else {
            Some(self.len.count)
        }
    }

    /// Length in characters, counted afresh from the buffer: characters of
    /// the text for `Ascii` and `Utf8`, code points for `Wtf8`.
    pub fn count_chars(&self) -> (n: usize)
        ensures
            n == self@.len(),
    {
        match self.as_str() {
            Some(s) => s.unicode_len(),
            None => self.data.as_wtf8().code_point_count(),
        }
    }

    /// Length in characters: code points for the class `Wtf8`. The first
    /// call may count them; the count is kept for the calls that follow.
    pub fn char_len(&mut self) -> (n: usize)
        ensures
            n == old(self)@.len(),
            final(self)@ == old(self)@,
            final(self).spec_bytes() == old(self).spec_bytes(),
            final(self).spec_kind() == old(self).spec_kind(),
            final(self).cached() == n,
    {
        proof {
            use_type_invariant(&*self);
        }
        if self.len.count == UNCOMPUTED {
            self._compute_char_len()
        } else {
            self.len.count
        }
    }

    fn _compute_char_len(&mut self) -> (n: usize)
        ensures
            n == old(self)@.len(),
            final(self)@ == old(self)@,
            final(self).spec_bytes() == old(self).spec_bytes(),
            final(self).spec_kind() == old(self).spec_kind(),
            final(self).cached() == n,
    {
        proof {
            use_type_invariant(&*self);
        }
        let len: usize = self.count_chars();
        self.len = StrLen::from(len);
        len
    }

    /// The code point at position `index`, counted in characters.
    pub fn nth_char(&self, index: usize) -> (code: CodePoint)
        requires
            index < self@.len(),
        ensures
            code@ == self@[index as int],
    {
        proof {
            use_type_invariant(self);
        }
        match self.as_str_kind() {
            PyKindStr::Ascii(s) => {
                proof {
                    lemma_ascii_is_utf8(self.data.spec_bytes());
                }
                CodePoint::from_ascii_char(ascii_str_index(s, index))
            },
            PyKindStr::Utf8(s) => CodePoint::from_char(s.get_char(index)),
            PyKindStr::Wtf8(w) => {
                let v: u32 = nth_code_point(w.as_bytes(), index);
                CodePoint::from_u32(v).unwrap()
            },
        }
    }
}

} // verus!
