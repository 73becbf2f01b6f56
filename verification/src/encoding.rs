//! The buffer encoding: UTF-8 widened to admit surrogate code points, as long
//! as no leading surrogate is directly followed by a trailing one.
//!
//! A buffer is read as a sequence of code points. Well-formed UTF-8 is the
//! special case in which no code point is a surrogate.

use crate::codepoint::{
    encoded_len, is_code_point, is_high_surrogate, is_low_surrogate, is_scalar_value,
    is_surrogate,
};
use vstd::prelude::*;
use vstd::utf8::*;

verus! {

/// Every byte is below `0x80`.
pub open spec fn is_ascii_bytes(bytes: Seq<u8>) -> bool {
    forall|i: int| 0 <= i < bytes.len() ==> #[trigger] bytes[i] < 0x80
}

/// The buffer starts with the encoding of one code point: a leading byte,
/// the continuation bytes it calls for, and no more bytes than the code
/// point needs. Unlike UTF-8 this admits surrogates.
pub open spec fn valid_first_code_point(bytes: Seq<u8>) -> bool {
    &&& valid_leading_and_continuation_bytes_first_codepoint(bytes)
    &&& not_overlong_encoding(decode_first_codepoint(bytes), length_of_first_codepoint(bytes))
}

/// The buffer without its first code point.
pub open spec fn pop_first_code_point(bytes: Seq<u8>) -> Seq<u8> {
    bytes.skip(length_of_first_codepoint(bytes))
}

/// The buffer is a sequence of encoded code points.
pub open spec fn well_formed(bytes: Seq<u8>) -> bool
    decreases bytes.len(),
{
    bytes.len() != 0 ==> valid_first_code_point(bytes) && well_formed(
        pop_first_code_point(bytes),
    )
}

/// The code points that a well-formed buffer holds.
pub open spec fn decode_code_points(bytes: Seq<u8>) -> Seq<u32>
    decreases bytes.len(),
    when well_formed(bytes)
{
    if bytes.len() == 0 {
        seq![]
    } else {
        seq![decode_first_codepoint(bytes)] + decode_code_points(pop_first_code_point(bytes))
    }
}

/// No leading surrogate is directly followed by a trailing surrogate.
pub open spec fn no_surrogate_pair(code_points: Seq<u32>) -> bool {
    forall|i: int|
        0 <= i < code_points.len() - 1 ==> !(is_high_surrogate(#[trigger] code_points[i])
            && is_low_surrogate(code_points[i + 1]))
}

/// No code point is a surrogate.
pub open spec fn no_surrogate(code_points: Seq<u32>) -> bool {
    forall|i: int| 0 <= i < code_points.len() ==> !is_surrogate(#[trigger] code_points[i])
}

/// The buffer is valid in the permissive encoding: well formed, and any
/// surrogate in it stands alone.
pub open spec fn valid_wtf8(bytes: Seq<u8>) -> bool {
    well_formed(bytes) && no_surrogate_pair(decode_code_points(bytes))
}

/// The numbers of the characters of a text.
pub open spec fn scalars(text: Seq<char>) -> Seq<u32> {
    Seq::new(text.len(), |i: int| text[i] as u32)
}

/// The bytes of ASCII text, each as a code point.
pub open spec fn widen(bytes: Seq<u8>) -> Seq<u32> {
    Seq::new(bytes.len(), |i: int| bytes[i] as u32)
}

/// Number of bytes that the code points take together.
pub open spec fn encoded_size(code_points: Seq<u32>) -> nat
    decreases code_points.len(),
{
    if code_points.len() == 0 {
        0
    } else {
        encoded_size(code_points.drop_last()) + encoded_len(code_points.last())
    }
}

/// The encoding of one code point.
pub open spec fn encode_code_point(v: u32) -> Seq<u8> {
    if v < 0x80 {
        seq![leading_byte_width_1(v)]
    } else if v < 0x800 {
        seq![leading_byte_width_2(v), last_continuation_byte(v)]
    } else if v < 0x10000 {
        seq![leading_byte_width_3(v), second_last_continuation_byte(v), last_continuation_byte(v)]
    } else {
        seq![
            leading_byte_width_4(v),
            third_last_continuation_byte(v),
            second_last_continuation_byte(v),
            last_continuation_byte(v),
        ]
    }
}

proof fn lemma_decoded_bounds(b0: u8, b1: u8, b2: u8)
    by (bit_vector)
    ensures
        codepoint_width_1(b0) < 0x80,
        codepoint_width_2(b0, b1) < 0x800,
        codepoint_width_3(b0, b1, b2) < 0x10000,
{
}

/// What the first code point of a well-formed buffer tells about the rest.
pub proof fn lemma_first_code_point(bytes: Seq<u8>)
    requires
        well_formed(bytes),
        bytes.len() > 0,
    ensures
        valid_first_code_point(bytes),
        1 <= length_of_first_codepoint(bytes) <= bytes.len(),
        length_of_first_codepoint(bytes) == encoded_len(decode_first_codepoint(bytes)),
        is_code_point(decode_first_codepoint(bytes)),
        well_formed(bytes.skip(length_of_first_codepoint(bytes))),
        decode_code_points(bytes) == seq![decode_first_codepoint(bytes)] + decode_code_points(
            bytes.skip(length_of_first_codepoint(bytes)),
        ),
        decode_code_points(bytes).len() == 1 + decode_code_points(
            bytes.skip(length_of_first_codepoint(bytes)),
        ).len(),
        decode_code_points(bytes)[0] == decode_first_codepoint(bytes),
{
    lemma_decoded_bounds(bytes[0], bytes[1], bytes[2]);
}

/// The empty buffer holds no code point.
pub proof fn lemma_decode_empty(bytes: Seq<u8>)
    requires
        bytes.len() == 0,
    ensures
        well_formed(bytes),
        decode_code_points(bytes) == Seq::<u32>::empty(),
        valid_wtf8(bytes),
        valid_utf8(bytes),
{
}

/// A buffer holds at most as many code points as bytes.
pub proof fn lemma_count_bound(bytes: Seq<u8>)
    requires
        well_formed(bytes),
    ensures
        decode_code_points(bytes).len() <= bytes.len(),
        forall|i: int|
            0 <= i < decode_code_points(bytes).len() ==> is_code_point(
                #[trigger] decode_code_points(bytes)[i],
            ),
    decreases bytes.len(),
{
    if bytes.len() > 0 {
        lemma_first_code_point(bytes);
        lemma_count_bound(bytes.skip(length_of_first_codepoint(bytes)));
    }
}

/// Valid UTF-8 is valid in the permissive encoding too, and holds the
/// numbers of its characters, none of them a surrogate.
pub proof fn lemma_utf8_is_wtf8(bytes: Seq<u8>)
    requires
        valid_utf8(bytes),
    ensures
        well_formed(bytes),
        valid_wtf8(bytes),
        decode_code_points(bytes) == scalars(decode_utf8(bytes)),
        no_surrogate(decode_code_points(bytes)),
    decreases bytes.len(),
{
    if bytes.len() > 0 {
        let rest = pop_first_scalar(bytes);
        assert(rest == pop_first_code_point(bytes));
        lemma_utf8_is_wtf8(rest);
        lemma_first_code_point(bytes);
        let first = decode_first_codepoint(bytes);
        assert(is_scalar_value(first));
        assert(first as char as u32 == first);
        assert(decode_code_points(bytes) =~= scalars(decode_utf8(bytes)));
        let cps = decode_code_points(bytes);
        assert forall|i: int| 0 <= i < cps.len() implies !is_surrogate(#[trigger] cps[i]) by {
            if i > 0 {
                assert(cps[i] == decode_code_points(rest)[i - 1]);
            }
        }
    } else {
        assert(decode_code_points(bytes) =~= scalars(decode_utf8(bytes)));
    }
}

/// A well-formed buffer without surrogates is valid UTF-8.
pub proof fn lemma_no_surrogate_is_utf8(bytes: Seq<u8>)
    requires
        well_formed(bytes),
        no_surrogate(decode_code_points(bytes)),
    ensures
        valid_utf8(bytes),
    decreases bytes.len(),
{
    if bytes.len() > 0 {
        lemma_first_code_point(bytes);
        let rest = pop_first_code_point(bytes);
        let cps = decode_code_points(bytes);
        assert(cps[0] == decode_first_codepoint(bytes));
        assert forall|i: int| 0 <= i < decode_code_points(rest).len() implies !is_surrogate(
            #[trigger] decode_code_points(rest)[i],
        ) by {
            assert(decode_code_points(rest)[i] == cps[i + 1]);
        }
        lemma_no_surrogate_is_utf8(rest);
        assert(rest == pop_first_scalar(bytes));
    }
}

/// A buffer that holds a surrogate is not valid UTF-8.
pub proof fn lemma_surrogate_is_not_utf8(bytes: Seq<u8>, i: int)
    requires
        well_formed(bytes),
        0 <= i < decode_code_points(bytes).len(),
        is_surrogate(decode_code_points(bytes)[i]),
    ensures
        !valid_utf8(bytes),
{
    if valid_utf8(bytes) {
        lemma_utf8_is_wtf8(bytes);
    }
}

/// ASCII bytes are valid UTF-8, one code point to the byte.
pub proof fn lemma_ascii_is_utf8(bytes: Seq<u8>)
    requires
        is_ascii_bytes(bytes),
    ensures
        valid_utf8(bytes),
        well_formed(bytes),
        decode_code_points(bytes) == widen(bytes),
    decreases bytes.len(),
{
    if bytes.len() > 0 {
        let rest = bytes.skip(1);
        assert(is_ascii_bytes(rest)) by {
            assert forall|i: int| 0 <= i < rest.len() implies #[trigger] rest[i] < 0x80 by {
                assert(rest[i] == bytes[i + 1]);
            }
        }
        lemma_ascii_is_utf8(rest);
        assert(bytes[0] < 0x80);
        assert(rest == pop_first_scalar(bytes));
        assert(rest == pop_first_code_point(bytes));
        let b0 = bytes[0];
        assert(b0 & 0x7F == b0) by (bit_vector)
            requires
                b0 < 0x80,
        ;
        lemma_utf8_is_wtf8(bytes);
        assert(decode_code_points(bytes) =~= widen(bytes));
    } else {
        assert(decode_code_points(bytes) =~= widen(bytes));
    }
}

/// Valid UTF-8 in which every byte is ASCII or not: a text is ASCII exactly
/// when its bytes are.
pub proof fn lemma_ascii_text(text: Seq<char>)
    ensures
        is_ascii_chars(text) <==> is_ascii_bytes(encode_utf8(text)),
    decreases text.len(),
{
    if text.len() > 0 {
        let rest = text.drop_first();
        lemma_ascii_text(rest);
        encode_utf8_first_scalar(text);
        let bytes = encode_utf8(text);
        let head = encode_scalar(text[0] as u32);
        char_is_scalar(text[0]);
        let v = text[0] as u32;
        assert(bytes == head + encode_utf8(rest));
        assert(v >= 0x80 ==> head[0] >= 0x80) by {
            assert(v >= 0x80 ==> bytes[0] == head[0]);
            assert(has_width_2_encoding(v) ==> leading_byte_width_2(v) >= 0x80) by (bit_vector);
            assert(has_width_3_encoding(v) ==> leading_byte_width_3(v) >= 0x80) by (bit_vector);
            assert(has_width_4_encoding(v) ==> leading_byte_width_4(v) >= 0x80) by (bit_vector);
        }
        assert(v < 0x80 ==> head.len() == 1 && head[0] < 0x80) by {
            assert(v < 0x80 ==> leading_byte_width_1(v) < 0x80) by (bit_vector);
        }
        if is_ascii_chars(text) {
            assert('\0' <= text[0] <= '\u{7f}');
            assert(is_ascii_chars(rest)) by {
                assert forall|i: int| 0 <= i < rest.len() implies '\0' <= #[trigger] rest[i]
                    <= '\u{7f}' by {
                    assert(rest[i] == text[i + 1]);
                }
            }
            assert forall|i: int| 0 <= i < bytes.len() implies #[trigger] bytes[i] < 0x80 by {
                if i > 0 {
                    assert(bytes[i] == encode_utf8(rest)[i - 1]);
                }
            }
        }
        if is_ascii_bytes(bytes) {
            assert(bytes[0] < 0x80);
            assert(v < 0x80);
            assert(is_ascii_bytes(encode_utf8(rest))) by {
                assert forall|i: int| 0 <= i < encode_utf8(rest).len() implies #[trigger] encode_utf8(
                    rest,
                )[i] < 0x80 by {
                    assert(encode_utf8(rest)[i] == bytes[i + 1]);
                }
            }
            assert(is_ascii_chars(rest));
            assert forall|i: int| 0 <= i < text.len() implies '\0' <= #[trigger] text[i]
                <= '\u{7f}' by {
                if i > 0 {
                    assert(text[i] == rest[i - 1]);
                    assert('\0' <= rest[i - 1] <= '\u{7f}');
                } else {
                    char_u32_cast(text[0], v);
                }
            }
        }
    }
}

proof fn lemma_encode_bits(v: u32)
    by (bit_vector)
    requires
        v <= 0x10FFFF,
    ensures
        v < 0x80 ==> is_leading_byte_width_1(leading_byte_width_1(v)) && codepoint_width_1(
            leading_byte_width_1(v),
        ) == v,
        0x80 <= v < 0x800 ==> is_leading_byte_width_2(leading_byte_width_2(v))
            && is_continuation_byte(last_continuation_byte(v)) && codepoint_width_2(
            leading_byte_width_2(v),
            last_continuation_byte(v),
        ) == v,
        0x800 <= v < 0x10000 ==> is_leading_byte_width_3(leading_byte_width_3(v))
            && is_continuation_byte(second_last_continuation_byte(v)) && is_continuation_byte(
            last_continuation_byte(v),
        ) && codepoint_width_3(
            leading_byte_width_3(v),
            second_last_continuation_byte(v),
            last_continuation_byte(v),
        ) == v,
        0x10000 <= v ==> is_leading_byte_width_4(leading_byte_width_4(v)) && is_continuation_byte(
            third_last_continuation_byte(v),
        ) && is_continuation_byte(second_last_continuation_byte(v)) && is_continuation_byte(
            last_continuation_byte(v),
        ) && codepoint_width_4(
            leading_byte_width_4(v),
            third_last_continuation_byte(v),
            second_last_continuation_byte(v),
            last_continuation_byte(v),
        ) == v,
{
}

/// The encoding of a code point is a well-formed buffer that holds this
/// code point and nothing else. For a scalar value it is the UTF-8 encoding.
pub proof fn lemma_encode_code_point(v: u32)
    requires
        is_code_point(v),
    ensures
        encode_code_point(v).len() == encoded_len(v),
        well_formed(encode_code_point(v)),
        valid_wtf8(encode_code_point(v)),
        decode_code_points(encode_code_point(v)) == seq![v],
        is_scalar_value(v) ==> encode_code_point(v) == encode_scalar(v) && valid_utf8(
            encode_code_point(v),
        ),
{
    let e = encode_code_point(v);
    lemma_encode_bits(v);
    assert(valid_first_code_point(e));
    assert(length_of_first_codepoint(e) == e.len());
    assert(decode_first_codepoint(e) == v);
    let rest = pop_first_code_point(e);
    assert(rest.len() == 0);
    lemma_decode_empty(rest);
    assert(well_formed(e));
    assert(decode_code_points(e) =~= seq![v]);
    if is_scalar_value(v) {
        assert(no_surrogate(decode_code_points(e)));
        lemma_no_surrogate_is_utf8(e);
    }
}

/// The size of a sequence that starts with `first`.
pub proof fn lemma_encoded_size_first(first: u32, rest: Seq<u32>)
    ensures
        encoded_size(seq![first] + rest) == encoded_len(first) + encoded_size(rest),
    decreases rest.len(),
{
    let all = seq![first] + rest;
    if rest.len() == 0 {
        assert(all.drop_last() == Seq::<u32>::empty());
        assert(all.last() == first);
        assert(encoded_size(all.drop_last()) == 0);
        assert(encoded_size(rest) == 0);
    } else {
        assert(all.drop_last() == seq![first] + rest.drop_last());
        assert(all.last() == rest.last());
        lemma_encoded_size_first(first, rest.drop_last());
    }
}

/// A well-formed buffer is as long as its code points take together.
pub proof fn lemma_encoded_size_total(bytes: Seq<u8>)
    requires
        well_formed(bytes),
    ensures
        encoded_size(decode_code_points(bytes)) == bytes.len(),
    decreases bytes.len(),
{
    if bytes.len() > 0 {
        lemma_first_code_point(bytes);
        let rest = bytes.skip(length_of_first_codepoint(bytes));
        lemma_encoded_size_total(rest);
        lemma_encoded_size_first(decode_first_codepoint(bytes), decode_code_points(rest));
    }
}

/// A well-formed buffer can be cut after any number `n` of its code points.
/// Both parts are well formed; the first holds the first `n` code points,
/// the second the others.
pub proof fn lemma_split(bytes: Seq<u8>, n: int)
    requires
        well_formed(bytes),
        0 <= n <= decode_code_points(bytes).len(),
    ensures
        encoded_size(decode_code_points(bytes).take(n)) <= bytes.len(),
        well_formed(bytes.take(encoded_size(decode_code_points(bytes).take(n)) as int)),
        decode_code_points(bytes.take(encoded_size(decode_code_points(bytes).take(n)) as int))
            == decode_code_points(bytes).take(n),
        well_formed(bytes.skip(encoded_size(decode_code_points(bytes).take(n)) as int)),
        decode_code_points(bytes.skip(encoded_size(decode_code_points(bytes).take(n)) as int))
            == decode_code_points(bytes).skip(n),
    decreases n,
{
    let cps = decode_code_points(bytes);
    if n == 0 {
        assert(cps.take(0) == Seq::<u32>::empty());
        assert(bytes.take(0) == Seq::<u8>::empty());
        assert(bytes.skip(0) == bytes);
        lemma_decode_empty(bytes.take(0));
        assert(cps.skip(0) == cps);
    } else {
        lemma_first_code_point(bytes);
        let w = length_of_first_codepoint(bytes);
        let first = decode_first_codepoint(bytes);
        let rest = bytes.skip(w);
        let rest_cps = decode_code_points(rest);
        lemma_split(rest, n - 1);
        let e1 = encoded_size(rest_cps.take(n - 1)) as int;
        assert(cps.take(n) == seq![first] + rest_cps.take(n - 1));
        lemma_encoded_size_first(first, rest_cps.take(n - 1));
        let e = w + e1;
        assert(e == encoded_size(cps.take(n)));
        let head = bytes.take(e);
        assert(head.len() >= w);
        assert(valid_first_code_point(head));
        assert(decode_first_codepoint(head) == first);
        assert(length_of_first_codepoint(head) == w);
        assert(pop_first_code_point(head) == rest.take(e1));
        assert(well_formed(head));
        assert(decode_code_points(head) == seq![first] + decode_code_points(rest.take(e1)));
        assert(bytes.skip(e) == rest.skip(e1));
        assert(cps.skip(n) == rest_cps.skip(n - 1));
    }
}

/// In valid UTF-8 the end of every code point is a character boundary.
pub proof fn lemma_boundary(bytes: Seq<u8>, n: int)
    requires
        valid_utf8(bytes),
        0 <= n <= decode_utf8(bytes).len(),
    ensures
        is_char_boundary(bytes, encoded_size(scalars(decode_utf8(bytes)).take(n)) as int),
    decreases n,
{
    lemma_utf8_is_wtf8(bytes);
    let cps = decode_code_points(bytes);
    if n == 0 {
        assert(cps.take(0) == Seq::<u32>::empty());
    } else {
        lemma_first_code_point(bytes);
        let w = length_of_first_codepoint(bytes);
        let first = decode_first_codepoint(bytes);
        let rest = pop_first_scalar(bytes);
        assert(rest == bytes.skip(w));
        lemma_utf8_is_wtf8(rest);
        let rest_cps = decode_code_points(rest);
        lemma_boundary(rest, n - 1);
        assert(cps.take(n) == seq![first] + rest_cps.take(n - 1));
        lemma_encoded_size_first(first, rest_cps.take(n - 1));
        lemma_split(rest, n - 1);
    }
}

/// Dropping code points from either end keeps a buffer free of surrogate
/// pairs.
pub proof fn lemma_subrange_no_surrogate_pair(code_points: Seq<u32>, from: int, to: int)
    requires
        no_surrogate_pair(code_points),
        0 <= from <= to <= code_points.len(),
    ensures
        no_surrogate_pair(code_points.subrange(from, to)),
{
    let part = code_points.subrange(from, to);
    assert forall|i: int| 0 <= i < part.len() - 1 implies !(is_high_surrogate(#[trigger] part[i])
        && is_low_surrogate(part[i + 1])) by {
        assert(part[i] == code_points[from + i]);
        assert(part[i + 1] == code_points[from + i + 1]);
    }
}

} // verus!
