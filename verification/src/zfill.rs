//! Zero padding of a numeral that may carry a sign.

use vstd::prelude::*;
use vstd::slice::{slice_subrange, slice_to_vec};

verus! {

/// `n` times the digit `0`.
pub open spec fn zeros(n: nat) -> Seq<u8> {
    Seq::new(n, |i: int| 0x30u8)
}

/// `b` is `+` or `-`.
pub open spec fn is_sign(b: u8) -> bool {
    b == 0x2B || b == 0x2D
}

/// `bytes` padded with zeros to `width` bytes. The zeros stand after a
/// leading sign and before everything else. A text of `width` bytes or more
/// is left as it is.
pub open spec fn zfill_spec(bytes: Seq<u8>, width: nat) -> Seq<u8> {
    if width <= bytes.len() {
        bytes
    } else if bytes.len() > 0 && is_sign(bytes[0]) {
        seq![bytes[0]] + zeros((width - bytes.len()) as nat) + bytes.drop_first()
    } else {
        zeros((width - bytes.len()) as nat) + bytes
    }
}

/// A text shorter than `width` is padded to exactly `width` bytes; a
/// longer one keeps its length.
pub proof fn lemma_zfill_len(bytes: Seq<u8>, width: nat)
    ensures
        zfill_spec(bytes, width).len() == if width <= bytes.len() {
            bytes.len()
        } else {
            width
        },
{
}

/// Pads `bytes` with zeros to `width` bytes, after a leading `+` or `-` if
/// there is one. Returns a copy of `bytes` if they are `width` long already.
pub fn zfill(bytes: &[u8], width: usize) -> (filled: Vec<u8>)
    ensures
        filled@ == zfill_spec(bytes@, width as nat),
{
    if width <= bytes.len() {
        slice_to_vec(bytes)
    } else {
        let signed: bool = bytes.len() > 0 && (bytes[0] == 0x2B || bytes[0] == 0x2D);
        let split: usize = if signed {
            1
        } else {
            0
        };
        let sign: &[u8] = slice_subrange(bytes, 0, split);
        let s: &[u8] = slice_subrange(bytes, split, bytes.len());
        let mut filled: Vec<u8> = Vec::new();
        filled.extend_from_slice(sign);
        let pad: usize = width - bytes.len();
        let mut i: usize = 0;
        while i < pad
            invariant
                i <= pad,
                filled@ == sign@ + zeros(i as nat),
            decreases pad - i,
        {
            filled.push(0x30);
            i += 1;
        }
        filled.extend_from_slice(s);
        proof {
            if signed {
                assert(sign@ == seq![bytes@[0]]);
                assert(s@ == bytes@.drop_first());
            } else {
                assert(sign@ == Seq::<u8>::empty());
                assert(s@ == bytes@);
            }
        }
        filled
    }
}

} // verus!
