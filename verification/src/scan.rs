//! Walking a buffer code point by code point.

use crate::encoding::is_ascii_bytes;
use crate::codepoint::{encoded_len, is_code_point, is_high_surrogate, is_low_surrogate};
use crate::encoding::{
    decode_code_points, encode_code_point, encoded_size, lemma_decode_empty,
    lemma_first_code_point, pop_first_code_point, valid_first_code_point, valid_wtf8,
    well_formed,
};
use vstd::prelude::*;
use vstd::utf8::*;

verus! {

/// Whether every byte is below `0x80`.
pub fn is_ascii(bytes: &[u8]) -> (r: bool)
    ensures
        r == is_ascii_bytes(bytes@),
{
    let mut i: usize = 0;
    while i < bytes.len()
        invariant
            i <= bytes.len(),
            forall|j: int| 0 <= j < i ==> #[trigger] bytes@[j] < 0x80,
        decreases bytes.len() - i,
    {
        if bytes[i] >= 0x80 {
            return false;
        }
        i += 1;
    }
    true
}

/// Number of bytes of the code point that starts with the leading byte
/// `lead`.
pub fn lead_width(lead: u8) -> (w: usize)
    ensures
        w == if is_leading_byte_width_1(lead) {
            1int
        } else if is_leading_byte_width_2(lead) {
            2int
        } else if is_leading_byte_width_3(lead) {
            3int
        } else {
            4int
        },
{
    if lead <= 0x7f {
        1
    } else if 0xc0 <= lead && lead <= 0xdf {
        2
    } else if 0xe0 <= lead && lead <= 0xef {
        3
    } else {
        4
    }
}

/// The code point that starts at byte `at`, and its width in bytes.
pub fn decode_at(bytes: &[u8], at: usize) -> (r: (u32, usize))
    requires
        at < bytes.len(),
        well_formed(bytes@.skip(at as int)),
    ensures
        r.0 == decode_first_codepoint(bytes@.skip(at as int)),
        r.1 == length_of_first_codepoint(bytes@.skip(at as int)),
        r.1 == encoded_len(r.0),
        is_code_point(r.0),
        at + r.1 <= bytes.len(),
        well_formed(bytes@.skip(at + r.1)),
{
    proof {
        lemma_first_code_point(bytes@.skip(at as int));
        assert(bytes@.skip(at as int).skip(length_of_first_codepoint(bytes@.skip(at as int)))
            == bytes@.skip(at + length_of_first_codepoint(bytes@.skip(at as int))));
    }
    let b0: u8 = bytes[at];
    let width: usize = lead_width(b0);
    let code: u32 = if width == 1 {
        (b0 & 0x7F) as u32
    } else if width == 2 {
        let b1: u8 = bytes[at + 1];
        (((b0 & 0x1F) as u32) << 6) | ((b1 & 0x3F) as u32)
    } else if width == 3 {
        let b1: u8 = bytes[at + 1];
        let b2: u8 = bytes[at + 2];
        (((b0 & 0x0F) as u32) << 12) | (((b1 & 0x3F) as u32) << 6) | ((b2 & 0x3F) as u32)
    } else {
        let b1: u8 = bytes[at + 1];
        let b2: u8 = bytes[at + 2];
        let b3: u8 = bytes[at + 3];
        (((b0 & 0x07) as u32) << 18) | (((b1 & 0x3F) as u32) << 12) | (((b2 & 0x3F) as u32) << 6)
            | ((b3 & 0x3F) as u32)
    };
    (code, width)
}

/// Number of code points in a well-formed buffer.
pub fn count_code_points(bytes: &[u8]) -> (n: usize)
    requires
        well_formed(bytes@),
    ensures
        n == decode_code_points(bytes@).len(),
{
    let mut at: usize = 0;
    let mut n: usize = 0;
    proof {
        assert(bytes@.skip(0) == bytes@);
    }
    while at < bytes.len()
        invariant
            at <= bytes.len(),
            n <= at,
            well_formed(bytes@.skip(at as int)),
            n + decode_code_points(bytes@.skip(at as int)).len() == decode_code_points(
                bytes@,
            ).len(),
        decreases bytes.len() - at,
    {
        proof {
            lemma_first_code_point(bytes@.skip(at as int));
            assert(bytes@.skip(at as int).skip(length_of_first_codepoint(bytes@.skip(at as int)))
                == bytes@.skip(at + length_of_first_codepoint(bytes@.skip(at as int))));
        }
        let width: usize = lead_width(bytes[at]);
        at += width;
        n += 1;
    }
    proof {
        lemma_decode_empty(bytes@.skip(at as int));
    }
    n
}

/// The code point at position `index`, counted in code points.
pub fn nth_code_point(bytes: &[u8], index: usize) -> (code: u32)
    requires
        well_formed(bytes@),
        index < decode_code_points(bytes@).len(),
    ensures
        code == decode_code_points(bytes@)[index as int],
        is_code_point(code),
{
    let mut at: usize = 0;
    let mut n: usize = 0;
    proof {
        assert(bytes@.skip(0) == bytes@);
    }
    while n < index
        invariant
            at <= bytes.len(),
            n <= index,
            index < decode_code_points(bytes@).len(),
            well_formed(bytes@.skip(at as int)),
            decode_code_points(bytes@.skip(at as int)) == decode_code_points(bytes@).skip(
                n as int,
            ),
        decreases index - n,
    {
        proof {
            if at == bytes.len() {
                lemma_decode_empty(bytes@.skip(at as int));
            }
            lemma_first_code_point(bytes@.skip(at as int));
            let w = length_of_first_codepoint(bytes@.skip(at as int));
            assert(bytes@.skip(at as int).skip(w) == bytes@.skip(at + w));
            assert(decode_code_points(bytes@).skip(n as int).skip(1) == decode_code_points(
                bytes@,
            ).skip(n + 1));
            assert(decode_code_points(bytes@.skip(at + w)) == decode_code_points(
                bytes@.skip(at as int),
            ).skip(1));
        }
        let width: usize = lead_width(bytes[at]);
        at += width;
        n += 1;
    }
    proof {
        if at == bytes.len() {
            lemma_decode_empty(bytes@.skip(at as int));
        }
        lemma_first_code_point(bytes@.skip(at as int));
    }
    decode_at(bytes, at).0
}

/// The byte offset just after the first `n` code points, or `None` if the
/// buffer holds fewer.
pub fn offset_after(bytes: &[u8], n: usize) -> (r: Option<usize>)
    requires
        well_formed(bytes@),
    ensures
        r is Some <==> n <= decode_code_points(bytes@).len(),
        r matches Some(end) ==> end == encoded_size(decode_code_points(bytes@).take(n as int))
            && end <= bytes.len(),
{
    let mut at: usize = 0;
    let mut k: usize = 0;
    proof {
        assert(bytes@.skip(0) == bytes@);
        assert(decode_code_points(bytes@).take(0) == Seq::<u32>::empty());
    }
    while k < n
        invariant
            at <= bytes.len(),
            k <= n,
            k <= decode_code_points(bytes@).len(),
            at == encoded_size(decode_code_points(bytes@).take(k as int)),
            well_formed(bytes@.skip(at as int)),
            decode_code_points(bytes@.skip(at as int)) == decode_code_points(bytes@).skip(
                k as int,
            ),
        decreases n - k,
    {
        if at >= bytes.len() {
            proof {
                lemma_decode_empty(bytes@.skip(at as int));
            }
            return None;
        }
        proof {
            let cps = decode_code_points(bytes@);
            lemma_first_code_point(bytes@.skip(at as int));
            let w = length_of_first_codepoint(bytes@.skip(at as int));
            assert(bytes@.skip(at as int).skip(w) == bytes@.skip(at + w));
            assert(cps.skip(k as int).skip(1) == cps.skip(k + 1));
            assert(decode_code_points(bytes@.skip(at + w)) == decode_code_points(
                bytes@.skip(at as int),
            ).skip(1));
            assert(cps.take(k + 1).drop_last() == cps.take(k as int));
            assert(cps.take(k + 1).last() == cps[k as int]);
            assert(cps[k as int] == cps.skip(k as int)[0]);
        }
        let width: usize = lead_width(bytes[at]);
        at += width;
        k += 1;
    }
    Some(at)
}

fn is_continuation(b: u8) -> (r: bool)
    ensures
        r == is_continuation_byte(b),
{
    0x80 <= b && b <= 0xbf
}

/// The code point that starts at byte `at` and its width, if the bytes from
/// `at` on start with the encoding of a code point.
pub fn first_code_point(bytes: &[u8], at: usize) -> (r: Option<(u32, usize)>)
    requires
        at < bytes.len(),
    ensures
        r is Some <==> valid_first_code_point(bytes@.skip(at as int)),
        r matches Some(found) ==> found.0 == decode_first_codepoint(bytes@.skip(at as int))
            && found.1 == length_of_first_codepoint(bytes@.skip(at as int)) && at + found.1
            <= bytes.len(),
{
    let b0: u8 = bytes[at];
    let left: usize = bytes.len() - at;
    if b0 <= 0x7f {
        Some(((b0 & 0x7F) as u32, 1))
    } else if 0xc0 <= b0 && b0 <= 0xdf {
        if left < 2 || !is_continuation(bytes[at + 1]) {
            return None;
        }
        let b1: u8 = bytes[at + 1];
        let code: u32 = (((b0 & 0x1F) as u32) << 6) | ((b1 & 0x3F) as u32);
        if code < 0x80 {
            return None;
        }
        Some((code, 2))
    } else if 0xe0 <= b0 && b0 <= 0xef {
        if left < 3 || !is_continuation(bytes[at + 1]) || !is_continuation(bytes[at + 2]) {
            return None;
        }
        let b1: u8 = bytes[at + 1];
        let b2: u8 = bytes[at + 2];
        let code: u32 = (((b0 & 0x0F) as u32) << 12) | (((b1 & 0x3F) as u32) << 6) | ((b2
            & 0x3F) as u32);
        if code < 0x800 {
            return None;
        }
        Some((code, 3))
    } else if 0xf0 <= b0 && b0 <= 0xf7 {
        if left < 4 || !is_continuation(bytes[at + 1]) || !is_continuation(bytes[at + 2])
            || !is_continuation(bytes[at + 3]) {
            return None;
        }
        let b1: u8 = bytes[at + 1];
        let b2: u8 = bytes[at + 2];
        let b3: u8 = bytes[at + 3];
        let code: u32 = (((b0 & 0x07) as u32) << 18) | (((b1 & 0x3F) as u32) << 12) | (((b2
            & 0x3F) as u32) << 6) | ((b3 & 0x3F) as u32);
        if code < 0x10000 || code > 0x10ffff {
            return None;
        }
        Some((code, 4))
    } else {
        None
    }
}

/// Whether the bytes are valid in the permissive encoding: a sequence of
/// encoded code points in which no leading surrogate is directly followed
/// by a trailing one.
pub fn is_valid_wtf8(bytes: &[u8]) -> (r: bool)
    ensures
        r == valid_wtf8(bytes@),
{
    let mut at: usize = 0;
    let mut after_high: bool = false;
    let ghost mut n: int = 0;
    proof {
        assert(bytes@.skip(0) == bytes@);
        if well_formed(bytes@) {
            assert(decode_code_points(bytes@).skip(0) == decode_code_points(bytes@));
        }
    }
    while at < bytes.len()
        invariant
            at <= bytes.len(),
            well_formed(bytes@) <==> well_formed(bytes@.skip(at as int)),
            well_formed(bytes@) ==> {
                let cps = decode_code_points(bytes@);
                &&& 0 <= n <= cps.len()
                &&& decode_code_points(bytes@.skip(at as int)) == cps.skip(n)
                &&& forall|i: int|
                    0 <= i < n - 1 ==> !(is_high_surrogate(#[trigger] cps[i]) && is_low_surrogate(
                        cps[i + 1],
                    ))
                &&& after_high <==> n > 0 && is_high_surrogate(cps[n - 1])
            },
        decreases bytes.len() - at,
    {
        let ghost tail = bytes@.skip(at as int);
        let (code, width) = match first_code_point(bytes, at) {
            Some(found) => found,
            None => {
                return false;
            },
        };
        proof {
            assert(pop_first_code_point(tail) == bytes@.skip(at + width));
            if well_formed(bytes@) {
                let cps = decode_code_points(bytes@);
                lemma_first_code_point(tail);
                assert(cps.skip(n)[0] == cps[n]);
                assert(cps.skip(n).skip(1) == cps.skip(n + 1));
                assert(decode_code_points(bytes@.skip(at + width)) == decode_code_points(
                    tail,
                ).skip(1));
            }
        }
        if after_high && 0xDC00 <= code && code <= 0xDFFF {
            proof {
                if well_formed(bytes@) {
                    let cps = decode_code_points(bytes@);
                    assert(is_high_surrogate(cps[n - 1]) && is_low_surrogate(cps[n - 1 + 1]));
                }
            }
            return false;
        }
        after_high = 0xD800 <= code && code <= 0xDBFF;
        at += width;
        proof {
            n = n + 1;
        }
    }
    proof {
        lemma_decode_empty(bytes@.skip(at as int));
    }
    true
}

/// Appends the encoding of the code point `code` to `out`.
pub fn encode_into(code: u32, out: &mut Vec<u8>)
    requires
        is_code_point(code),
    ensures
        final(out)@ == old(out)@ + encode_code_point(code),
{
    if code < 0x80 {
        out.push((code & 0x7F) as u8);
    } else if code < 0x800 {
        out.push(0xC0 | ((code >> 6) & 0x1F) as u8);
        out.push(0x80 | (code & 0x3F) as u8);
    } else if code < 0x10000 {
        out.push(0xE0 | ((code >> 12) & 0x0F) as u8);
        out.push(0x80 | ((code >> 6) & 0x3F) as u8);
        out.push(0x80 | (code & 0x3F) as u8);
    } else {
        out.push(0xF0 | ((code >> 18) & 0x7) as u8);
        out.push(0x80 | ((code >> 12) & 0x3F) as u8);
        out.push(0x80 | ((code >> 6) & 0x3F) as u8);
        out.push(0x80 | (code & 0x3F) as u8);
    }
    assert(out@ =~= old(out)@ + encode_code_point(code));
}

} // verus!
