//! Slicing by character position, over text and over buffers that may hold
//! surrogates. Positions count characters (code points), not bytes.

use crate::encoding::{
    decode_code_points, encoded_size, lemma_boundary, lemma_encoded_size_total, lemma_split,
    lemma_subrange_no_surrogate_pair, lemma_utf8_is_wtf8, scalars, well_formed,
};
use crate::scan::offset_after;
use crate::wtf8::Wtf8;
use vstd::prelude::*;
use vstd::slice::slice_subrange;
use vstd::string::StringSliceAdditionalSpecFns;
use vstd::utf8::*;

verus! {

broadcast use vstd::utf8::group_utf8_lib;

/// One end of a range of positions.
#[derive(Debug, Copy, Clone, PartialEq, Eq, Structural)]
pub enum Bound {
    /// The range reaches this position and holds it.
    Included(usize),
    /// The range reaches this position and does not hold it.
    Excluded(usize),
    /// The range has no end on this side.
    Unbounded,
}

/// The first position of a range that starts at `start`.
pub open spec fn first_index(start: Bound) -> int {
    match start {
        Bound::Included(i) => i as int,
        Bound::Excluded(i) => i + 1,
        Bound::Unbounded => 0,
    }
}

/// The position just after a range that ends at `end`, if it ends at all.
pub open spec fn end_index(end: Bound) -> Option<int> {
    match end {
        Bound::Included(i) => Some(i + 1),
        Bound::Excluded(i) => Some(i as int),
        Bound::Unbounded => None,
    }
}

/// The two ends fit the machine's integers and the range does not end
/// before it starts.
pub open spec fn bounds_in_order(start: Bound, end: Bound) -> bool {
    &&& first_index(start) <= usize::MAX
    &&& end_index(end) matches Some(e) ==> first_index(start) <= e <= usize::MAX
}

/// A range of positions, given by its two ends.
pub trait CharRange {
    /// Where the range starts.
    spec fn spec_start_bound(&self) -> Bound;

    /// Where the range ends.
    spec fn spec_end_bound(&self) -> Bound;

    /// Where the range starts.
    fn start_bound(&self) -> (b: Bound)
        ensures
            b == self.spec_start_bound(),
    ;

    /// Where the range ends.
    fn end_bound(&self) -> (b: Bound)
        ensures
            b == self.spec_end_bound(),
    ;
}

impl CharRange for core::ops::Range<usize> {
    open spec fn spec_start_bound(&self) -> Bound {
        Bound::Included(self.start)
    }

    open spec fn spec_end_bound(&self) -> Bound {
        Bound::Excluded(self.end)
    }

    fn start_bound(&self) -> (b: Bound) {
        Bound::Included(self.start)
    }

    fn end_bound(&self) -> (b: Bound) {
        Bound::Excluded(self.end)
    }
}

impl CharRange for (Bound, Bound) {
    open spec fn spec_start_bound(&self) -> Bound {
        self.0
    }

    open spec fn spec_end_bound(&self) -> Bound {
        self.1
    }

    fn start_bound(&self) -> (b: Bound) {
        self.0
    }

    fn end_bound(&self) -> (b: Bound) {
        self.1
    }
}

/// The items of `text` at the positions from `lo` up to `hi`, or from `lo`
/// on where `hi` is `None`. There is no such slice if a position lies
/// behind the end of `text`.
pub open spec fn slice_spec<T>(text: Seq<T>, lo: int, hi: Option<int>) -> Option<Seq<T>> {
    match hi {
        None => if 0 <= lo <= text.len() {
            Some(text.skip(lo))
        } else {
            None
        },
        Some(h) => if 0 <= lo <= h <= text.len() {
            Some(text.subrange(lo, h))
        } else {
            None
        },
    }
}

/// Cutting a text at any position `k` and joining the two slices gives the
/// text back.
pub proof fn lemma_slices_rejoin<T>(text: Seq<T>, k: int)
    requires
        0 <= k <= text.len(),
    ensures
        slice_spec(text, 0, Some(k)) is Some,
        slice_spec(text, k, Some(text.len() as int)) is Some,
        slice_spec(text, k, None) == slice_spec(text, k, Some(text.len() as int)),
        slice_spec(text, 0, Some(k))->0 + slice_spec(text, k, Some(text.len() as int))->0 == text,
{
    assert(text.subrange(0, k) + text.subrange(k, text.len() as int) =~= text);
    assert(text.skip(k) =~= text.subrange(k, text.len() as int));
}

/// A text is determined by the numbers of its characters.
pub proof fn lemma_scalars_injective(a: Seq<char>, b: Seq<char>)
    requires
        scalars(a) == scalars(b),
    ensures
        a == b,
{
    assert(a.len() == scalars(a).len());
    assert(b.len() == scalars(b).len());
    assert forall|i: int| 0 <= i < a.len() implies a[i] == b[i] by {
        assert(scalars(a)[i] == a[i] as u32);
        assert(scalars(b)[i] == b[i] as u32);
        char_u32_cast(a[i], a[i] as u32);
        char_u32_cast(b[i], b[i] as u32);
    }
    assert(a =~= b);
}

/// The code points of encoded text are the numbers of its characters.
pub proof fn lemma_text_code_points(text: Seq<char>)
    ensures
        valid_utf8(encode_utf8(text)),
        well_formed(encode_utf8(text)),
        decode_code_points(encode_utf8(text)) == scalars(text),
        encoded_size(scalars(text)) == encode_utf8(text).len(),
{
    let bytes = encode_utf8(text);
    encode_utf8_valid_utf8(text);
    encode_utf8_decode_utf8(text);
    lemma_utf8_is_wtf8(bytes);
    lemma_encoded_size_total(bytes);
}

proof fn lemma_cut_text(whole: Seq<char>, part: Seq<char>, from: int, to: int)
    requires
        0 <= from <= to <= whole.len(),
        encode_utf8(part) == encode_utf8(whole).subrange(
            encoded_size(scalars(whole).take(from)) as int,
            encoded_size(scalars(whole).take(to)) as int,
        ),
    ensures
        part == whole.subrange(from, to),
{
    let bytes = encode_utf8(whole);
    let cps = scalars(whole);
    lemma_text_code_points(whole);
    lemma_text_code_points(part);
    let b = encoded_size(cps.take(from)) as int;
    let e = encoded_size(cps.take(to)) as int;
    lemma_split(bytes, from);
    lemma_split(bytes, to);
    let tail = bytes.skip(b);
    assert(cps.skip(from).take(to - from) == cps.subrange(from, to));
    lemma_split(tail, to - from);
    lemma_encoded_size_total(bytes.take(e));
    lemma_encoded_size_total(bytes.take(b));
    assert(cps.take(to) == cps.take(from) + cps.subrange(from, to));
    lemma_encoded_size_concat(cps.take(from), cps.subrange(from, to));
    assert(tail.take(e - b) == bytes.subrange(b, e));
    assert(scalars(part) == cps.subrange(from, to));
    assert(cps.subrange(from, to) == scalars(whole.subrange(from, to)));
    lemma_scalars_injective(part, whole.subrange(from, to));
}

/// The size of two sequences of code points, one after the other.
pub proof fn lemma_encoded_size_concat(a: Seq<u32>, b: Seq<u32>)
    ensures
        encoded_size(a + b) == encoded_size(a) + encoded_size(b),
    decreases b.len(),
{
    if b.len() == 0 {
        assert(a + b == a);
    } else {
        assert((a + b).drop_last() == a + b.drop_last());
        assert((a + b).last() == b.last());
        lemma_encoded_size_concat(a, b.drop_last());
    }
}

/// The byte offset just after the first `nchars` characters of `s`: 0 for
/// `nchars == 0`. `None` if `s` has fewer characters.
pub fn char_range_end(s: &str, nchars: usize) -> (r: Option<usize>)
    ensures
        r == if nchars <= s@.len() {
            Some(encode_utf8(s@.take(nchars as int)).len() as usize)
        } else {
            None
        },
        r matches Some(end) ==> end == encode_utf8(s@.take(nchars as int)).len() && end
            <= s.spec_bytes().len(),
{
    let bytes: &[u8] = s.as_bytes();
    proof {
        lemma_text_code_points(s@);
        if nchars <= s@.len() {
            lemma_text_code_points(s@.take(nchars as int));
            assert(scalars(s@).take(nchars as int) == scalars(s@.take(nchars as int)));
        }
    }
    offset_after(bytes, nchars)
}

/// The byte offset just after the first `nchars` code points of `s`: 0 for
/// `nchars == 0`. `None` if `s` has fewer code points.
pub fn codepoint_range_end(s: Wtf8<'_>, nchars: usize) -> (r: Option<usize>)
    ensures
        r == if nchars <= s@.len() {
            Some(encoded_size(s@.take(nchars as int)) as usize)
        } else {
            None
        },
        r matches Some(end) ==> end == encoded_size(s@.take(nchars as int)) && end
            <= s.spec_bytes().len(),
{
    let bytes: &[u8] = s.as_bytes();
    offset_after(bytes, nchars)
}

/// The characters of `s` in `range`, or `None` if the range reaches behind
/// the end of `s`.
pub fn try_get_chars<'a, R: CharRange>(s: &'a str, range: R) -> (r: Option<&'a str>)
    requires
        bounds_in_order(range.spec_start_bound(), range.spec_end_bound()),
    ensures
        r is Some <==> slice_spec(
            s@,
            first_index(range.spec_start_bound()),
            end_index(range.spec_end_bound()),
        ) is Some,
        r matches Some(t) ==> Some(t@) == slice_spec(
            s@,
            first_index(range.spec_start_bound()),
            end_index(range.spec_end_bound()),
        ),
{
    let start: usize = match range.start_bound() {
        Bound::Included(i) => i,
        Bound::Excluded(i) => i + 1,
        Bound::Unbounded => 0,
    };
    let begin: usize = match char_range_end(s, start) {
        Some(begin) => begin,
        None => {
            return None;
        },
    };
    proof {
        lemma_text_code_points(s@);
        lemma_text_code_points(s@.take(start as int));
        assert(scalars(s@).take(start as int) == scalars(s@.take(start as int)));
        lemma_boundary(s.spec_bytes(), start as int);
    }
    let rest: &'a str = s.split_at(begin).1;
    proof {
        assert(scalars(s@).take(s@.len() as int) == scalars(s@));
        assert(rest.spec_bytes() == s.spec_bytes().subrange(
            encoded_size(scalars(s@).take(start as int)) as int,
            encoded_size(scalars(s@).take(s@.len() as int)) as int,
        ));
        lemma_cut_text(s@, rest@, start as int, s@.len() as int);
        assert(s@.subrange(start as int, s@.len() as int) == s@.skip(start as int));
    }
    let range_len: usize = match range.end_bound() {
        Bound::Included(i) => i + 1 - start,
        Bound::Excluded(i) => i - start,
        Bound::Unbounded => {
            return Some(rest);
        },
    };
    match char_range_end(rest, range_len) {
        Some(end) => {
            proof {
                lemma_text_code_points(rest@);
                lemma_text_code_points(rest@.take(range_len as int));
                assert(scalars(rest@).take(range_len as int) == scalars(
                    rest@.take(range_len as int),
                ));
                lemma_boundary(rest.spec_bytes(), range_len as int);
            }
            let part: &'a str = rest.split_at(end).0;
            proof {
                assert(scalars(rest@).take(0) == Seq::<u32>::empty());
                lemma_cut_text(rest@, part@, 0, range_len as int);
                assert(rest@.subrange(0, range_len as int) == s@.subrange(
                    start as int,
                    start + range_len,
                ));
            }
            Some(part)
        },
        None => None,
    }
}

/// The characters of `s` in `range`, which must lie within `s`.
pub fn get_chars<'a, R: CharRange>(s: &'a str, range: R) -> (t: &'a str)
    requires
        bounds_in_order(range.spec_start_bound(), range.spec_end_bound()),
        slice_spec(
            s@,
            first_index(range.spec_start_bound()),
            end_index(range.spec_end_bound()),
        ) is Some,
    ensures
        Some(t@) == slice_spec(
            s@,
            first_index(range.spec_start_bound()),
            end_index(range.spec_end_bound()),
        ),
{
    try_get_chars(s, range).unwrap()
}

/// The code points of `w` in `range`, or `None` if the range reaches behind
/// the end of `w`.
pub fn try_get_codepoints<'a, R: CharRange>(w: Wtf8<'a>, range: R) -> (r: Option<Wtf8<'a>>)
    requires
        bounds_in_order(range.spec_start_bound(), range.spec_end_bound()),
    ensures
        r is Some <==> slice_spec(
            w@,
            first_index(range.spec_start_bound()),
            end_index(range.spec_end_bound()),
        ) is Some,
        r matches Some(t) ==> Some(t@) == slice_spec(
            w@,
            first_index(range.spec_start_bound()),
            end_index(range.spec_end_bound()),
        ),
{
    let start: usize = match range.start_bound() {
        Bound::Included(i) => i,
        Bound::Excluded(i) => i + 1,
        Bound::Unbounded => 0,
    };
    let bytes: &'a [u8] = w.as_bytes();
    let begin: usize = match offset_after(bytes, start) {
        Some(begin) => begin,
        None => {
            return None;
        },
    };
    let tail: &'a [u8] = slice_subrange(bytes, begin, bytes.len());
    proof {
        lemma_split(bytes@, start as int);
        assert(tail@ == bytes@.skip(begin as int));
        assert(w@.skip(start as int) == w@.subrange(start as int, w@.len() as int));
        lemma_subrange_no_surrogate_pair(w@, start as int, w@.len() as int);
    }
    let rest: Wtf8<'a> = Wtf8::from_bytes_unchecked(tail);
    let range_len: usize = match range.end_bound() {
        Bound::Included(i) => i + 1 - start,
        Bound::Excluded(i) => i - start,
        Bound::Unbounded => {
            return Some(rest);
        },
    };
    match codepoint_range_end(rest, range_len) {
        Some(end) => {
            let head: &'a [u8] = slice_subrange(tail, 0, end);
            proof {
                lemma_split(tail@, range_len as int);
                assert(head@ == tail@.take(end as int));
                assert(rest@.take(range_len as int) == w@.subrange(
                    start as int,
                    start + range_len,
                ));
                lemma_subrange_no_surrogate_pair(w@, start as int, start + range_len);
            }
            Some(Wtf8::from_bytes_unchecked(head))
        },
        None => None,
    }
}

/// The code points of `w` in `range`, which must lie within `w`.
pub fn get_codepoints<'a, R: CharRange>(w: Wtf8<'a>, range: R) -> (t: Wtf8<'a>)
    requires
        bounds_in_order(range.spec_start_bound(), range.spec_end_bound()),
        slice_spec(
            w@,
            first_index(range.spec_start_bound()),
            end_index(range.spec_end_bound()),
        ) is Some,
    ensures
        Some(t@) == slice_spec(
            w@,
            first_index(range.spec_start_bound()),
            end_index(range.spec_end_bound()),
        ),
{
    try_get_codepoints(w, range).unwrap()
}

} // verus!
