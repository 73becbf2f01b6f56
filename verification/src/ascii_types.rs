//! The types of the `ascii` crate as Verus sees them: opaque values, a name
//! for the bytes that each one holds, and contracts for the conversions that
//! the crate calls. Verus takes these contracts on trust.

use crate::encoding::is_ascii_bytes;
use ascii::{AsciiChar, AsciiStr, AsciiString};
use vstd::prelude::*;

verus! {

#[verifier::external_type_specification]
#[verifier::external_body]
pub struct ExAsciiChar(AsciiChar);

#[verifier::external_type_specification]
#[verifier::external_body]
pub struct ExAsciiStr(AsciiStr);

#[verifier::external_type_specification]
#[verifier::external_body]
pub struct ExAsciiString(AsciiString);

/// The byte that an `AsciiChar` stands for.
pub uninterp spec fn ascii_char_byte(ch: AsciiChar) -> u8;

/// The bytes of an `AsciiStr`, in order.
pub uninterp spec fn ascii_str_bytes(s: &AsciiStr) -> Seq<u8>;

/// The bytes of an `AsciiString`, in order.
pub uninterp spec fn ascii_string_bytes(s: AsciiString) -> Seq<u8>;

/// `AsciiChar::from_ascii` on a `char`: succeeds exactly on the characters
/// below `0x80` and keeps the number.
#[verifier::external_body]
pub(crate) fn ascii_char_from_char(c: char) -> (r: Option<AsciiChar>)
    ensures
        r is Some <==> (c as u32) < 0x80,
        r matches Some(ch) ==> ascii_char_byte(ch) == c as u32,
{
    AsciiChar::from_ascii(c).ok()
}

/// `AsciiChar::as_byte`: the character as a byte, always below `0x80`.
#[verifier::external_body]
pub(crate) fn ascii_char_as_byte(ch: AsciiChar) -> (b: u8)
    ensures
        b == ascii_char_byte(ch),
        b < 0x80,
{
    ch.as_byte()
}

/// `AsciiStr::from_ascii` on a byte slice: succeeds exactly when every byte
/// is below `0x80`, and then borrows the same bytes.
#[verifier::external_body]
pub(crate) fn ascii_str_from_bytes(bytes: &[u8]) -> (r: Option<&AsciiStr>)
    ensures
        r is Some <==> is_ascii_bytes(bytes@),
        r matches Some(s) ==> ascii_str_bytes(s) == bytes@,
{
    AsciiStr::from_ascii(bytes).ok()
}

/// `AsciiStr::as_bytes`: the same text as a byte slice; every byte of it is
/// below `0x80`.
#[verifier::external_body]
pub(crate) fn ascii_str_as_bytes(s: &AsciiStr) -> (bytes: &[u8])
    ensures
        bytes@ == ascii_str_bytes(s),
        is_ascii_bytes(bytes@),
{
    s.as_bytes()
}

/// Indexing an `AsciiStr` by position: the character at `index`. The index
/// must be in bounds, as the crate's `Index` impl panics otherwise.
#[verifier::external_body]
pub(crate) fn ascii_str_index(s: &AsciiStr, index: usize) -> (ch: AsciiChar)
    requires
        index < ascii_str_bytes(s).len(),
    ensures
        ascii_char_byte(ch) == ascii_str_bytes(s)[index as int],
{
    s[index]
}

/// `AsciiString::from_ascii` on a byte vector: succeeds exactly when every
/// byte is below `0x80`, and then holds those bytes.
#[verifier::external_body]
pub(crate) fn ascii_string_from_bytes(bytes: Vec<u8>) -> (r: Option<AsciiString>)
    ensures
        r is Some <==> is_ascii_bytes(bytes@),
        r matches Some(s) ==> ascii_string_bytes(s) == bytes@,
{
    AsciiString::from_ascii(bytes).ok()
}

} // verus!
