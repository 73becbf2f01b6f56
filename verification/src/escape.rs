//! ASCII-only rendering of a text, with escapes for everything else.

use crate::ascii_types::{ascii_string_bytes, ascii_string_from_bytes};
use crate::encoding::is_ascii_bytes;
use ascii::AsciiString;
use vstd::prelude::*;
use vstd::std_specs::iter::IteratorSpec;

verus! {

/// The lower-case hexadecimal digit for `n`, which is below 16.
pub open spec fn hex_digit(n: nat) -> u8 {
    if n < 10 {
        (0x30 + n) as u8
    } else {
        (0x61 + n - 10) as u8
    }
}

/// The last `width` hexadecimal digits of `v`, most significant first, with
/// leading zeros.
pub open spec fn hex_digits(v: nat, width: nat) -> Seq<u8>
    decreases width,
{
    if width == 0 {
        seq![]
    } else {
        hex_digits(v / 16, (width - 1) as nat).push(hex_digit(v % 16))
    }
}

/// What one character becomes: itself if it is ASCII, else a backslash,
/// a letter that tells the width, and 2, 4 or 8 hexadecimal digits.
pub open spec fn escape_char(c: char) -> Seq<u8> {
    let v = c as u32;
    if v < 0x80 {
        seq![c as u8]
    } else if v < 0x100 {
        seq![0x5Cu8, 0x78u8] + hex_digits(v as nat, 2)
    } else if v < 0x10000 {
        seq![0x5Cu8, 0x75u8] + hex_digits(v as nat, 4)
    } else {
        seq![0x5Cu8, 0x55u8] + hex_digits(v as nat, 8)
    }
}

/// The escaped forms of all characters of `text`, one after the other.
pub open spec fn escape_chars(text: Seq<char>) -> Seq<u8>
    decreases text.len(),
{
    if text.len() == 0 {
        seq![]
    } else {
        escape_char(text[0]) + escape_chars(text.drop_first())
    }
}

proof fn lemma_hex_digits_ascii(v: nat, width: nat)
    ensures
        hex_digits(v, width).len() == width,
        is_ascii_bytes(hex_digits(v, width)),
    decreases width,
{
    if width > 0 {
        lemma_hex_digits_ascii(v / 16, (width - 1) as nat);
    }
}

proof fn lemma_escape_char_ascii(c: char)
    ensures
        is_ascii_bytes(escape_char(c)),
{
    lemma_hex_digits_ascii(c as nat, 2);
    lemma_hex_digits_ascii(c as nat, 4);
    lemma_hex_digits_ascii(c as nat, 8);
}

/// An ASCII text is its own escaped form, byte for byte.
pub proof fn lemma_escape_keeps_ascii(text: Seq<char>)
    requires
        forall|i: int| 0 <= i < text.len() ==> (#[trigger] text[i] as u32) < 0x80,
    ensures
        escape_chars(text) == Seq::new(text.len(), |i: int| text[i] as u8),
    decreases text.len(),
{
    if text.len() > 0 {
        let rest = text.drop_first();
        assert forall|i: int| 0 <= i < rest.len() implies (#[trigger] rest[i] as u32) < 0x80 by {
            assert(rest[i] == text[i + 1]);
        }
        lemma_escape_keeps_ascii(rest);
        assert((text[0] as u32) < 0x80);
        assert(escape_chars(text) =~= Seq::new(text.len(), |i: int| text[i] as u8));
    }
}

fn hex_digit_of(n: u32) -> (d: u8)
    requires
        n < 16,
    ensures
        d == hex_digit(n as nat),
{
    if n < 10 {
        0x30 + n as u8
    } else {
        0x61 + (n - 10) as u8
    }
}

fn push_hex(out: &mut Vec<u8>, v: u32, width: usize)
    ensures
        final(out)@ == old(out)@ + hex_digits(v as nat, width as nat),
    decreases width,
{
    if width > 0 {
        push_hex(out, v / 16, width - 1);
        out.push(hex_digit_of(v % 16));
    }
}

/// Renders `value` in ASCII: an ASCII character stands for itself, any
/// other becomes `\xHH`, `\uHHHH` or `\UHHHHHHHH` with lower-case digits,
/// the shortest form that holds its number.
pub fn to_ascii(value: &str) -> (escaped: AsciiString)
    ensures
        ascii_string_bytes(escaped) == escape_chars(value@),
        is_ascii_bytes(escape_chars(value@)),
{
    let mut ascii: Vec<u8> = Vec::new();
    let mut chars = value.chars();
    loop
        invariant_except_break
            chars.obeys_prophetic_iter_laws(),
            chars.decrease() is Some,
            ascii@ + escape_chars(chars.remaining()) == escape_chars(value@),
            is_ascii_bytes(ascii@),
        ensures
            ascii@ == escape_chars(value@),
            is_ascii_bytes(ascii@),
        decreases chars.decrease()->0,
    {
        let ghost rest_before = chars.remaining();
        let ghost out_before = ascii@;
        let next: Option<char> = chars.next();
        let c: char = match next {
            Some(c) => c,
            None => {
                break ;
            },
        };
        proof {
            assert(chars.remaining() == rest_before.drop_first());
            assert(c == rest_before[0]);
            lemma_escape_char_ascii(c);
        }
        let code: u32 = c as u32;
        if code < 0x80 {
            ascii.push(c as u8);
            assert(ascii@ =~= out_before + seq![c as u8]);
        } else if code < 0x100 {
            ascii.push(0x5C);
            ascii.push(0x78);
            push_hex(&mut ascii, code, 2);
            assert(ascii@ =~= out_before + (seq![0x5Cu8, 0x78u8] + hex_digits(code as nat, 2)));
        } else if code < 0x10000 {
            ascii.push(0x5C);
            ascii.push(0x75);
            push_hex(&mut ascii, code, 4);
            assert(ascii@ =~= out_before + (seq![0x5Cu8, 0x75u8] + hex_digits(code as nat, 4)));
        } else {
            ascii.push(0x5C);
            ascii.push(0x55);
            push_hex(&mut ascii, code, 8);
            assert(ascii@ =~= out_before + (seq![0x5Cu8, 0x55u8] + hex_digits(code as nat, 8)));
        }
        proof {
            assert(ascii@ == out_before + escape_char(c));
            assert(out_before + escape_char(c) + escape_chars(chars.remaining()) == out_before
                + escape_chars(rest_before));
        }
    }
    match ascii_string_from_bytes(ascii) {
        Some(escaped) => escaped,
        None => vstd::pervasive::unreached(),
    }
}

} // verus!
