//! Contracts for the few functions of the standard library that the crate
//! calls and that come without one. Verus takes each contract on trust.

use crate::codepoint::is_scalar_value;
use vstd::prelude::*;
use vstd::string::StringSliceAdditionalSpecFns;
use vstd::utf8::{encode_utf8, valid_utf8};

verus! {

/// `char::from_u32`: the `char` with the given number, if that number is a
/// scalar value, else `None`.
#[verifier::external_body]
pub(crate) fn char_from_u32(v: u32) -> (r: Option<char>)
    ensures
        r is Some <==> is_scalar_value(v),
        r matches Some(c) ==> c as u32 == v,
{
    char::from_u32(v)
}

/// `String::push`: appends one character to the end of the string.
#[verifier::external_body]
pub(crate) fn string_push(s: &mut String, c: char)
    ensures
        final(s)@ == old(s)@.push(c),
{
    s.push(c)
}

/// `core::str::from_utf8`: the bytes as a string slice if they are valid
/// UTF-8, else nothing. The slice borrows the very same bytes.
#[verifier::external_body]
pub(crate) fn str_from_utf8(bytes: &[u8]) -> (r: Option<&str>)
    ensures
        r is Some <==> valid_utf8(bytes@),
        r matches Some(s) ==> s.spec_bytes() == bytes@,
{
    core::str::from_utf8(bytes).ok()
}

/// `String::into_bytes`: the UTF-8 bytes of the string, in the same
/// allocation.
#[verifier::external_body]
pub(crate) fn string_into_bytes(s: String) -> (bytes: Vec<u8>)
    ensures
        bytes@ == encode_utf8(s@),
{
    s.into_bytes()
}

/// `str::into_string` on a boxed slice: the same text as a `String`.
#[verifier::external_body]
pub(crate) fn boxed_str_into_string(text: Box<str>) -> (s: String)
    ensures
        s@ == text@,
{
    text.into_string()
}

} // verus!
