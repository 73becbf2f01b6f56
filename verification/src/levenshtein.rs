//! A cost-bounded edit distance over bytes, in which changing only the case
//! of a letter is cheaper than any other edit.

use vstd::prelude::*;
use vstd::slice::slice_subrange;
use vstd::string::StringSliceAdditionalSpecFns;

verus! {

/// Cost of inserting a byte, deleting one, or replacing one by an unrelated
/// byte.
pub const MOVE_COST: usize = 2;

/// Cost of replacing a letter by the same letter in the other case.
pub const CASE_COST: usize = 1;

/// Longest window, after the common prefix and suffix are removed, that is
/// compared exactly.
pub const MAX_STRING_SIZE: usize = 40;

/// `b` with an ASCII upper-case letter replaced by its lower-case form.
pub open spec fn ascii_lower(b: u8) -> u8 {
    if 0x41 <= b <= 0x5A {
        (b + 32) as u8
    } else {
        b
    }
}

/// Cost of replacing the byte `a` by the byte `b`.
pub open spec fn substitution_cost_spec(a: u8, b: u8) -> nat {
    if a == b {
        0
    } else if ascii_lower(a) == ascii_lower(b) {
        1
    } else {
        2
    }
}

/// The smaller of two numbers.
pub open spec fn min2(x: nat, y: nat) -> nat {
    if x <= y {
        x
    } else {
        y
    }
}

/// The edit distance between `a` and `b`: the least total cost of
/// insertions and deletions (2 each) and substitutions
/// (`substitution_cost_spec`) that turn one into the other.
pub open spec fn edit_cost(a: Seq<u8>, b: Seq<u8>) -> nat
    decreases a.len() + b.len(),
{
    if a.len() == 0 {
        2 * b.len()
    } else if b.len() == 0 {
        2 * a.len()
    } else {
        min2(
            edit_cost(a.drop_last(), b.drop_last()) + substitution_cost_spec(a.last(), b.last()),
            min2(edit_cost(a.drop_last(), b), edit_cost(a, b.drop_last())) + 2,
        )
    }
}

/// Number of leading positions at which `a` and `b` hold the same byte.
pub open spec fn common_prefix_len(a: Seq<u8>, b: Seq<u8>) -> nat
    decreases a.len(),
{
    if a.len() > 0 && b.len() > 0 && a[0] == b[0] {
        1 + common_prefix_len(a.drop_first(), b.drop_first())
    } else {
        0
    }
}

/// Number of trailing positions at which `a` and `b` hold the same byte.
pub open spec fn common_suffix_len(a: Seq<u8>, b: Seq<u8>) -> nat
    decreases a.len(),
{
    if a.len() > 0 && b.len() > 0 && a.last() == b.last() {
        1 + common_suffix_len(a.drop_last(), b.drop_last())
    } else {
        0
    }
}

/// The distance between the first `i` bytes of `x` and the first `r` bytes
/// of `y`.
pub open spec fn cell(x: Seq<u8>, y: Seq<u8>, i: int, r: int) -> nat {
    edit_cost(x.take(i), y.take(r))
}

/// Some non-empty prefix of `x` is within `max_cost` of the first `r` bytes
/// of `y`.
pub open spec fn row_within(x: Seq<u8>, y: Seq<u8>, r: int, max_cost: nat) -> bool {
    exists|i: int| 1 <= i <= x.len() && #[trigger] cell(x, y, i, r) <= max_cost
}

/// Some non-empty prefix of `y` is farther than `max_cost` from every
/// non-empty prefix of `x`. The distance between `x` and `y` is then above
/// `max_cost` as well (`lemma_over_budget`).
pub open spec fn over_budget(x: Seq<u8>, y: Seq<u8>, max_cost: nat) -> bool {
    exists|r: int| 1 <= r <= y.len() && !#[trigger] row_within(x, y, r, max_cost)
}

/// The distance between two non-empty windows, `x` no longer than `y`, or
/// `max_cost + 1` where the budget is exceeded along the way.
pub open spec fn bounded_cost(x: Seq<u8>, y: Seq<u8>, max_cost: nat) -> nat {
    if (y.len() - x.len()) * 2 > max_cost {
        max_cost + 1
    } else if over_budget(x, y, max_cost) {
        max_cost + 1
    } else {
        edit_cost(x, y)
    }
}

/// The two windows that are left of `a` and `b` when their longest common
/// prefix and then their longest common suffix are set aside.
pub open spec fn windows(a: Seq<u8>, b: Seq<u8>) -> (Seq<u8>, Seq<u8>) {
    let p = common_prefix_len(a, b) as int;
    let s = common_suffix_len(a.skip(p), b.skip(p)) as int;
    (a.subrange(p, a.len() - s), b.subrange(p, b.len() - s))
}

/// Neither window is longer than `MAX_STRING_SIZE`.
pub open spec fn windows_fit(a: Seq<u8>, b: Seq<u8>) -> bool {
    windows(a, b).0.len() <= MAX_STRING_SIZE && windows(a, b).1.len() <= MAX_STRING_SIZE
}

/// What `levenshtein_distance` returns for the bytes `a` and `b`.
///
/// Equal inputs give 0. Otherwise the longest common prefix and then the
/// longest common suffix are set aside. If one window is then empty the
/// result is the exact distance, twice the length of the other. Windows
/// longer than `MAX_STRING_SIZE` give `max_cost + 1`. Else the result is
/// `bounded_cost` of the shorter window against the longer.
pub open spec fn levenshtein_spec(a: Seq<u8>, b: Seq<u8>, max_cost: nat) -> nat {
    if a == b {
        0
    } else {
        let wa = windows(a, b).0;
        let wb = windows(a, b).1;
        if wa.len() == 0 || wb.len() == 0 {
            (wa.len() + wb.len()) * 2
        } else if wa.len() > MAX_STRING_SIZE || wb.len() > MAX_STRING_SIZE {
            max_cost + 1
        } else if wb.len() < wa.len() {
            bounded_cost(wb, wa, max_cost)
        } else {
            bounded_cost(wa, wb, max_cost)
        }
    }
}

/// The distance is at most the cost of deleting all of one text and
/// inserting all of the other.
pub proof fn lemma_edit_cost_bound(a: Seq<u8>, b: Seq<u8>)
    ensures
        edit_cost(a, b) <= 2 * (a.len() + b.len()),
    decreases a.len() + b.len(),
{
    if a.len() != 0 && b.len() != 0 {
        lemma_edit_cost_bound(a.drop_last(), b);
    }
}

/// Distance from an ASCII upper-case letter to its lower-case form.
const CASE_OFFSET: u8 = 32;

fn is_upper(b: u8) -> (r: bool)
    ensures
        r == (0x41 <= b <= 0x5A),
{
    0x41 <= b && b <= 0x5A
}

proof fn lemma_low_bits_differ(a: u8, b: u8)
    requires
        (a & 31) != (b & 31),
    ensures
        substitution_cost_spec(a, b) == 2,
{
    assert(a & 31 == a % 32) by (bit_vector);
    assert(b & 31 == b % 32) by (bit_vector);
}

/// Cost of replacing `a` by `b`: 0 for equal bytes, `CASE_COST` for one
/// ASCII letter in its two cases, `MOVE_COST` otherwise.
pub fn substitution_cost(a: u8, b: u8) -> (c: usize)
    ensures
        c == substitution_cost_spec(a, b),
{
    if (a & 31) != (b & 31) {
        proof {
            lemma_low_bits_differ(a, b);
        }
        return MOVE_COST;
    }
    if a == b {
        return 0;
    }
    let mut a: u8 = a;
    let mut b: u8 = b;
    if is_upper(a) {
        a += CASE_OFFSET;
    }
    if is_upper(b) {
        b += CASE_OFFSET;
    }
    if a == b {
        CASE_COST
    } else {
        MOVE_COST
    }
}

fn bytes_equal(a: &[u8], b: &[u8]) -> (eq: bool)
    ensures
        eq == (a@ == b@),
{
    if a.len() != b.len() {
        return false;
    }
    let mut i: usize = 0;
    while i < a.len()
        invariant
            a.len() == b.len(),
            i <= a.len(),
            a@.take(i as int) == b@.take(i as int),
        decreases a.len() - i,
    {
        if a[i] != b[i] {
            return false;
        }
        assert(a@.take(i + 1) == a@.take(i as int).push(a@[i as int]));
        assert(b@.take(i + 1) == b@.take(i as int).push(b@[i as int]));
        i += 1;
    }
    assert(a@.take(i as int) == a@);
    assert(b@.take(i as int) == b@);
    true
}

proof fn lemma_common_prefix_step(a: Seq<u8>, b: Seq<u8>, p: int)
    requires
        0 <= p,
        p <= a.len(),
        p <= b.len(),
        a.take(p) == b.take(p),
    ensures
        common_prefix_len(a, b) == p + common_prefix_len(a.skip(p), b.skip(p)),
    decreases p,
{
    if p > 0 {
        assert(a[0] == a.take(p)[0]);
        assert(b[0] == b.take(p)[0]);
        assert(a.drop_first().take(p - 1) == a.take(p).drop_first());
        assert(b.drop_first().take(p - 1) == b.take(p).drop_first());
        lemma_common_prefix_step(a.drop_first(), b.drop_first(), p - 1);
        assert(a.drop_first().skip(p - 1) == a.skip(p));
        assert(b.drop_first().skip(p - 1) == b.skip(p));
    } else {
        assert(a.skip(0) == a);
        assert(b.skip(0) == b);
    }
}

fn common_prefix(a: &[u8], b: &[u8]) -> (p: usize)
    ensures
        p == common_prefix_len(a@, b@),
        p <= a.len(),
        p <= b.len(),
{
    let mut p: usize = 0;
    while p < a.len() && p < b.len() && a[p] == b[p]
        invariant
            p <= a.len(),
            p <= b.len(),
            a@.take(p as int) == b@.take(p as int),
        decreases a.len() - p,
    {
        assert(a@.take(p + 1) == a@.take(p as int).push(a@[p as int]));
        assert(b@.take(p + 1) == b@.take(p as int).push(b@[p as int]));
        p += 1;
    }
    proof {
        lemma_common_prefix_step(a@, b@, p as int);
        if p < a.len() && p < b.len() {
            assert(a@.skip(p as int)[0] == a@[p as int]);
            assert(b@.skip(p as int)[0] == b@[p as int]);
        }
    }
    p
}

proof fn lemma_common_suffix_step(a: Seq<u8>, b: Seq<u8>, s: int)
    requires
        0 <= s,
        s <= a.len(),
        s <= b.len(),
        a.skip(a.len() - s) == b.skip(b.len() - s),
    ensures
        common_suffix_len(a, b) == s + common_suffix_len(
            a.take(a.len() - s),
            b.take(b.len() - s),
        ),
    decreases s,
{
    if s > 0 {
        let ta = a.skip(a.len() - s);
        let tb = b.skip(b.len() - s);
        assert(a.last() == ta[s - 1]);
        assert(b.last() == tb[s - 1]);
        assert(a.drop_last().skip(a.len() - s) == ta.drop_last());
        assert(b.drop_last().skip(b.len() - s) == tb.drop_last());
        lemma_common_suffix_step(a.drop_last(), b.drop_last(), s - 1);
        assert(a.drop_last().take(a.len() - s) == a.take(a.len() - s));
        assert(b.drop_last().take(b.len() - s) == b.take(b.len() - s));
    } else {
        assert(a.take(a.len() as int) == a);
        assert(b.take(b.len() as int) == b);
    }
}

fn common_suffix(a: &[u8], b: &[u8]) -> (s: usize)
    ensures
        s == common_suffix_len(a@, b@),
        s <= a.len(),
        s <= b.len(),
{
    let mut s: usize = 0;
    while s < a.len() && s < b.len() && a[a.len() - 1 - s] == b[b.len() - 1 - s]
        invariant
            s <= a.len(),
            s <= b.len(),
            a@.skip(a.len() - s) == b@.skip(b.len() - s),
        decreases a.len() - s,
    {
        assert(a@.skip(a.len() - s - 1) == seq![a@[a.len() - s - 1]] + a@.skip(a.len() - s));
        assert(b@.skip(b.len() - s - 1) == seq![b@[b.len() - s - 1]] + b@.skip(b.len() - s));
        s += 1;
    }
    proof {
        lemma_common_suffix_step(a@, b@, s as int);
    }
    s
}

proof fn lemma_cell(x: Seq<u8>, y: Seq<u8>, i: int, r: int)
    requires
        0 <= i <= x.len(),
        0 <= r <= y.len(),
    ensures
        cell(x, y, i, r) <= 2 * (i + r),
        i == 0 ==> cell(x, y, i, r) == 2 * r,
        r == 0 ==> cell(x, y, i, r) == 2 * i,
        i > 0 && r > 0 ==> cell(x, y, i, r) == min2(
            cell(x, y, i - 1, r - 1) + substitution_cost_spec(x[i - 1], y[r - 1]),
            min2(cell(x, y, i - 1, r), cell(x, y, i, r - 1)) + 2,
        ),
{
    lemma_edit_cost_bound(x.take(i), y.take(r));
    if i > 0 && r > 0 {
        assert(x.take(i).drop_last() == x.take(i - 1));
        assert(y.take(r).drop_last() == y.take(r - 1));
    }
}

/// Replacing `a` by `b` costs what replacing `b` by `a` costs, and never
/// more than a deletion and an insertion together.
pub proof fn lemma_substitution_cost(a: u8, b: u8)
    ensures
        substitution_cost_spec(a, b) == substitution_cost_spec(b, a),
        substitution_cost_spec(a, b) <= 2,
        substitution_cost_spec(a, b) == 0 <==> a == b,
{
}

/// The distance does not depend on the order of the two texts.
pub proof fn lemma_edit_cost_symmetric(a: Seq<u8>, b: Seq<u8>)
    ensures
        edit_cost(a, b) == edit_cost(b, a),
    decreases a.len() + b.len(),
{
    if a.len() > 0 && b.len() > 0 {
        lemma_edit_cost_symmetric(a.drop_last(), b.drop_last());
        lemma_edit_cost_symmetric(a.drop_last(), b);
        lemma_edit_cost_symmetric(a, b.drop_last());
    }
}

/// The distance is at least the cost of making up the difference in length.
pub proof fn lemma_edit_cost_length_gap(a: Seq<u8>, b: Seq<u8>)
    ensures
        edit_cost(a, b) >= 2 * (a.len() - b.len()),
        edit_cost(a, b) >= 2 * (b.len() - a.len()),
    decreases a.len() + b.len(),
{
    if a.len() > 0 && b.len() > 0 {
        lemma_edit_cost_length_gap(a.drop_last(), b.drop_last());
        lemma_edit_cost_length_gap(a.drop_last(), b);
        lemma_edit_cost_length_gap(a, b.drop_last());
    }
}

proof fn lemma_edit_cost_longer(a: Seq<u8>, b: Seq<u8>)
    requires
        a.len() > 0,
    ensures
        edit_cost(a, b) <= edit_cost(a.drop_last(), b) + 2,
{
}

proof fn lemma_edit_cost_shorter(a: Seq<u8>, b: Seq<u8>)
    requires
        b.len() > 0,
    ensures
        edit_cost(a, b.drop_last()) <= edit_cost(a, b) + 2,
    decreases a.len(),
{
    if a.len() > 0 {
        lemma_edit_cost_longer(a, b.drop_last());
        lemma_edit_cost_shorter(a.drop_last(), b);
    }
}

proof fn lemma_edit_cost_common_last(a: Seq<u8>, b: Seq<u8>)
    requires
        a.len() > 0,
        b.len() > 0,
        a.last() == b.last(),
    ensures
        edit_cost(a, b) == edit_cost(a.drop_last(), b.drop_last()),
{
    lemma_edit_cost_shorter(a.drop_last(), b);
    lemma_edit_cost_symmetric(a.drop_last(), b.drop_last());
    lemma_edit_cost_shorter(b.drop_last(), a);
    lemma_edit_cost_symmetric(b.drop_last(), a);
}

proof fn lemma_edit_cost_common_first(c: u8, a: Seq<u8>, b: Seq<u8>)
    ensures
        edit_cost(seq![c] + a, seq![c] + b) == edit_cost(a, b),
    decreases a.len() + b.len(),
{
    let ca = seq![c] + a;
    let cb = seq![c] + b;
    if a.len() == 0 && b.len() == 0 {
        assert(ca.drop_last() == Seq::<u8>::empty());
        assert(cb.drop_last() == Seq::<u8>::empty());
        assert(edit_cost(ca.drop_last(), cb.drop_last()) == 0);
    } else if a.len() == 0 {
        assert(ca.drop_last() == Seq::<u8>::empty());
        assert(cb.drop_last() == seq![c] + b.drop_last());
        lemma_edit_cost_common_first(c, a, b.drop_last());
        assert(edit_cost(ca, cb.drop_last()) == 2 * b.drop_last().len());
        assert(edit_cost(ca.drop_last(), cb.drop_last()) == 2 * cb.drop_last().len());
        assert(edit_cost(ca.drop_last(), cb) == 2 * cb.len());
    } else if b.len() == 0 {
        assert(cb.drop_last() == Seq::<u8>::empty());
        assert(ca.drop_last() == seq![c] + a.drop_last());
        lemma_edit_cost_common_first(c, a.drop_last(), b);
        assert(edit_cost(ca.drop_last(), cb) == 2 * a.drop_last().len());
        assert(edit_cost(ca.drop_last(), cb.drop_last()) == 2 * ca.drop_last().len());
        assert(edit_cost(ca, cb.drop_last()) == 2 * ca.len());
    } else {
        assert(ca.drop_last() == seq![c] + a.drop_last());
        assert(cb.drop_last() == seq![c] + b.drop_last());
        assert(ca.last() == a.last());
        assert(cb.last() == b.last());
        lemma_edit_cost_common_first(c, a.drop_last(), b.drop_last());
        lemma_edit_cost_common_first(c, a.drop_last(), b);
        lemma_edit_cost_common_first(c, a, b.drop_last());
    }
}

/// A common prefix can be set aside without changing the distance.
pub proof fn lemma_edit_cost_common_prefix(a: Seq<u8>, b: Seq<u8>, p: int)
    requires
        0 <= p <= a.len(),
        p <= b.len(),
        a.take(p) == b.take(p),
    ensures
        edit_cost(a, b) == edit_cost(a.skip(p), b.skip(p)),
    decreases p,
{
    if p == 0 {
        assert(a.skip(0) == a);
        assert(b.skip(0) == b);
    } else {
        assert(a[0] == a.take(p)[0]);
        assert(b[0] == b.take(p)[0]);
        assert(a == seq![a[0]] + a.skip(1));
        assert(b == seq![a[0]] + b.skip(1));
        lemma_edit_cost_common_first(a[0], a.skip(1), b.skip(1));
        assert(a.skip(1).take(p - 1) == a.take(p).skip(1));
        assert(b.skip(1).take(p - 1) == b.take(p).skip(1));
        lemma_edit_cost_common_prefix(a.skip(1), b.skip(1), p - 1);
        assert(a.skip(1).skip(p - 1) == a.skip(p));
        assert(b.skip(1).skip(p - 1) == b.skip(p));
    }
}

/// A common suffix can be set aside without changing the distance.
pub proof fn lemma_edit_cost_common_suffix(a: Seq<u8>, b: Seq<u8>, s: int)
    requires
        0 <= s <= a.len(),
        s <= b.len(),
        a.skip(a.len() - s) == b.skip(b.len() - s),
    ensures
        edit_cost(a, b) == edit_cost(a.take(a.len() - s), b.take(b.len() - s)),
    decreases s,
{
    if s == 0 {
        assert(a.take(a.len() as int) == a);
        assert(b.take(b.len() as int) == b);
    } else {
        let ta = a.skip(a.len() - s);
        let tb = b.skip(b.len() - s);
        assert(a.last() == ta[s - 1]);
        assert(b.last() == tb[s - 1]);
        lemma_edit_cost_common_last(a, b);
        assert(a.drop_last().skip(a.len() - s) == ta.drop_last());
        assert(b.drop_last().skip(b.len() - s) == tb.drop_last());
        lemma_edit_cost_common_suffix(a.drop_last(), b.drop_last(), s - 1);
        assert(a.drop_last().take(a.len() - s) == a.take(a.len() - s));
        assert(b.drop_last().take(b.len() - s) == b.take(b.len() - s));
    }
}

/// The first `common_prefix_len` bytes of two texts are the same.
pub proof fn lemma_common_prefix_len(a: Seq<u8>, b: Seq<u8>)
    ensures
        common_prefix_len(a, b) <= a.len(),
        common_prefix_len(a, b) <= b.len(),
        a.take(common_prefix_len(a, b) as int) == b.take(common_prefix_len(a, b) as int),
    decreases a.len(),
{
    if a.len() > 0 && b.len() > 0 && a[0] == b[0] {
        let p = common_prefix_len(a.drop_first(), b.drop_first()) as int;
        lemma_common_prefix_len(a.drop_first(), b.drop_first());
        assert(a.take(p + 1) == seq![a[0]] + a.drop_first().take(p));
        assert(b.take(p + 1) == seq![b[0]] + b.drop_first().take(p));
    } else {
        assert(a.take(0) == b.take(0));
    }
}

/// The last `common_suffix_len` bytes of two texts are the same.
pub proof fn lemma_common_suffix_len(a: Seq<u8>, b: Seq<u8>)
    ensures
        common_suffix_len(a, b) <= a.len(),
        common_suffix_len(a, b) <= b.len(),
        a.skip(a.len() - common_suffix_len(a, b)) == b.skip(b.len() - common_suffix_len(a, b)),
    decreases a.len(),
{
    if a.len() > 0 && b.len() > 0 && a.last() == b.last() {
        let s = common_suffix_len(a.drop_last(), b.drop_last()) as int;
        lemma_common_suffix_len(a.drop_last(), b.drop_last());
        assert(a.skip(a.len() - s - 1) == a.drop_last().skip(a.len() - 1 - s).push(a.last()));
        assert(b.skip(b.len() - s - 1) == b.drop_last().skip(b.len() - 1 - s).push(b.last()));
    } else {
        assert(a.skip(a.len() as int) == b.skip(b.len() as int));
    }
}

/// The distance between two texts is the distance between their windows.
pub proof fn lemma_windows_keep_distance(a: Seq<u8>, b: Seq<u8>)
    ensures
        edit_cost(a, b) == edit_cost(windows(a, b).0, windows(a, b).1),
{
    let p = common_prefix_len(a, b) as int;
    lemma_common_prefix_len(a, b);
    lemma_edit_cost_common_prefix(a, b, p);
    let ra = a.skip(p);
    let rb = b.skip(p);
    let s = common_suffix_len(ra, rb) as int;
    lemma_common_suffix_len(ra, rb);
    lemma_edit_cost_common_suffix(ra, rb, s);
    assert(ra.take(ra.len() - s) == a.subrange(p, a.len() - s));
    assert(rb.take(rb.len() - s) == b.subrange(p, b.len() - s));
}

proof fn lemma_row_above_at(x: Seq<u8>, y: Seq<u8>, r: int, c: int, i: int)
    requires
        0 <= r < y.len(),
        0 <= i <= x.len(),
        forall|j: int| 0 <= j <= x.len() ==> #[trigger] cell(x, y, j, r) > c,
    ensures
        cell(x, y, i, r + 1) > c,
    decreases i,
{
    lemma_cell(x, y, i, r + 1);
    lemma_cell(x, y, 0, r);
    assert(cell(x, y, 0, r) > c);
    if i > 0 {
        lemma_row_above_at(x, y, r, c, i - 1);
        assert(cell(x, y, i - 1, r) > c);
        assert(cell(x, y, i, r) > c);
    }
}

proof fn lemma_rows_above(x: Seq<u8>, y: Seq<u8>, r: int, c: int, to: int)
    requires
        0 <= r <= to <= y.len(),
        forall|j: int| 0 <= j <= x.len() ==> #[trigger] cell(x, y, j, r) > c,
    ensures
        forall|j: int| 0 <= j <= x.len() ==> #[trigger] cell(x, y, j, to) > c,
    decreases to - r,
{
    if r < to {
        assert forall|j: int| 0 <= j <= x.len() implies #[trigger] cell(x, y, j, r + 1) > c by {
            lemma_row_above_at(x, y, r, c, j);
        }
        lemma_rows_above(x, y, r + 1, c, to);
    }
}

/// Where the sweep gives up, the distance is above the budget indeed.
pub proof fn lemma_over_budget(x: Seq<u8>, y: Seq<u8>, max_cost: nat)
    requires
        x.len() >= 1,
        over_budget(x, y, max_cost),
    ensures
        edit_cost(x, y) > max_cost,
{
    let r = choose|r: int| 1 <= r <= y.len() && !#[trigger] row_within(x, y, r, max_cost);
    assert forall|j: int| 0 <= j <= x.len() implies #[trigger] cell(x, y, j, r) > max_cost by {
        if j >= 1 {
            assert(!(1 <= j <= x.len() && cell(x, y, j, r) <= max_cost));
        } else {
            lemma_cell(x, y, 0, r);
            lemma_cell(x, y, 0, r - 1);
            lemma_cell(x, y, 1, r);
            lemma_substitution_cost(x[0], y[r - 1]);
            assert(!(1 <= 1 <= x.len() && cell(x, y, 1, r) <= max_cost));
        }
    }
    lemma_rows_above(x, y, r, max_cost as int, y.len() as int);
    assert(cell(x, y, x.len() as int, y.len() as int) > max_cost);
    assert(x.take(x.len() as int) == x);
    assert(y.take(y.len() as int) == y);
}

/// A text is at distance 0 from itself.
pub proof fn lemma_edit_cost_same(a: Seq<u8>)
    ensures
        edit_cost(a, a) == 0,
    decreases a.len(),
{
    if a.len() > 0 {
        lemma_edit_cost_common_last(a, a);
        lemma_edit_cost_same(a.drop_last());
    }
}

/// What a result says about the distance between `a` and `b`.
///
/// Every result but `max_cost + 1` is the exact distance; so is every
/// result within the budget. A result above the budget says that the
/// distance is above the budget too, as long as the windows are short
/// enough to be compared.
pub proof fn lemma_levenshtein_spec(a: Seq<u8>, b: Seq<u8>, max_cost: nat)
    ensures
        levenshtein_spec(a, b, max_cost) != max_cost + 1 ==> levenshtein_spec(a, b, max_cost)
            == edit_cost(a, b),
        levenshtein_spec(a, b, max_cost) <= max_cost ==> levenshtein_spec(a, b, max_cost)
            == edit_cost(a, b),
        windows_fit(a, b) && levenshtein_spec(a, b, max_cost) > max_cost ==> edit_cost(a, b)
            > max_cost,
{
    if a == b {
        lemma_edit_cost_same(a);
    } else {
        let wa = windows(a, b).0;
        let wb = windows(a, b).1;
        lemma_windows_keep_distance(a, b);
        lemma_edit_cost_symmetric(wa, wb);
        lemma_edit_cost_length_gap(wa, wb);
        if wa.len() == 0 || wb.len() == 0 {
        } else if wa.len() > 40 || wb.len() > 40 {
        } else if wb.len() < wa.len() {
            if over_budget(wb, wa, max_cost) {
                lemma_over_budget(wb, wa, max_cost);
            }
        } else {
            if over_budget(wa, wb, max_cost) {
                lemma_over_budget(wa, wb, max_cost);
            }
        }
    }
}

/// The row-by-row sweep over a scratch row of `MAX_STRING_SIZE` cells. It
/// gives up with `max_cost + 1` as soon as a whole row is above `max_cost`.
fn bounded_distance(x: &[u8], y: &[u8], max_cost: usize) -> (d: usize)
    requires
        1 <= x.len() <= MAX_STRING_SIZE,
        1 <= y.len() <= MAX_STRING_SIZE,
        max_cost < usize::MAX,
    ensures
        d == (if over_budget(x@, y@, max_cost as nat) {
            max_cost + 1
        } else {
            edit_cost(x@, y@) as int
        }),
{
    let m: usize = x.len();
    let n: usize = y.len();
    let mut buffer: [usize; MAX_STRING_SIZE] = [0usize; MAX_STRING_SIZE];
    let mut i: usize = 0;
    while i < m
        invariant
            i <= m,
            m == x.len(),
            m <= MAX_STRING_SIZE,
            forall|j: int| 1 <= j <= i ==> buffer@[j - 1] == #[trigger] cell(x@, y@, j, 0),
        decreases m - i,
    {
        buffer[i] = (i + 1) * MOVE_COST;
        proof {
            assert forall|j: int| 1 <= j <= i + 1 implies buffer@[j - 1] == #[trigger] cell(
                x@,
                y@,
                j,
                0,
            ) by {
                lemma_cell(x@, y@, j, 0);
            }
        }
        i += 1;
    }
    let mut result: usize = 0;
    let mut row: usize = 0;
    while row < n
        invariant
            row <= n,
            m == x.len(),
            n == y.len(),
            1 <= m <= MAX_STRING_SIZE,
            n <= MAX_STRING_SIZE,
            max_cost < usize::MAX,
            forall|j: int| 1 <= j <= m ==> buffer@[j - 1] == #[trigger] cell(x@, y@, j, row as int),
            forall|q: int| 1 <= q <= row ==> #[trigger] row_within(x@, y@, q, max_cost as nat),
            row > 0 ==> result == cell(x@, y@, m as int, row as int),
        decreases n - row,
    {
        let y_code: u8 = y[row];
        result = row * MOVE_COST;
        let mut distance: usize = result;
        let mut minimum: usize = usize::MAX;
        let ghost mut least: int = 0;
        let mut col: usize = 0;
        proof {
            lemma_cell(x@, y@, 0, row as int);
        }
        while col < m
            invariant
                col <= m,
                row < n,
                m == x.len(),
                n == y.len(),
                1 <= m <= MAX_STRING_SIZE,
                n <= MAX_STRING_SIZE,
                y_code == y@[row as int],
                forall|j: int|
                    1 <= j <= col ==> buffer@[j - 1] == #[trigger] cell(x@, y@, j, row + 1),
                forall|j: int|
                    col < j <= m ==> buffer@[j - 1] == #[trigger] cell(x@, y@, j, row as int),
                distance == cell(x@, y@, col as int, row as int),
                col == 0 ==> result == 2 * row && minimum == usize::MAX,
                col > 0 ==> result == cell(x@, y@, col as int, row + 1),
                forall|j: int| 1 <= j <= col ==> minimum <= #[trigger] cell(x@, y@, j, row + 1),
                col > 0 ==> 1 <= least <= col && minimum == cell(x@, y@, least, row + 1),
            decreases m - col,
        {
            proof {
                lemma_cell(x@, y@, col as int, row as int);
                lemma_cell(x@, y@, col + 1, row as int);
                lemma_cell(x@, y@, col as int, row + 1);
                lemma_cell(x@, y@, col + 1, row + 1);
            }
            let substitute: usize = distance + substitution_cost(y_code, x[col]);
            distance = buffer[col];
            let nearest: usize = if result < distance {
                result
            } else {
                distance
            };
            let insert_delete: usize = nearest + MOVE_COST;
            result = if insert_delete < substitute {
                insert_delete
            } else {
                substitute
            };
            assert(result == cell(x@, y@, col + 1, row + 1));
            buffer[col] = result;
            if result < minimum {
                minimum = result;
                proof {
                    least = col + 1;
                }
            }
            col += 1;
        }
        if minimum > max_cost {
            proof {
                assert(!row_within(x@, y@, row + 1, max_cost as nat));
            }
            return max_cost + 1;
        }
        proof {
            assert(cell(x@, y@, least, row + 1) <= max_cost);
            assert(row_within(x@, y@, row + 1, max_cost as nat));
        }
        row += 1;
    }
    proof {
        assert(x@.take(m as int) == x@);
        assert(y@.take(n as int) == y@);
    }
    result
}

/// The bounded edit distance between `a` and `b`, compared byte by byte.
///
/// A result above `max_cost` says that the texts are too far apart; only
/// `max_cost + 1` may then be other than the exact distance
/// (`lemma_levenshtein_spec`). The budget and twice the length of either
/// text must fit in a `usize`.
pub fn levenshtein_distance(a: &str, b: &str, max_cost: usize) -> (d: usize)
    requires
        max_cost < usize::MAX,
        2 * a.spec_bytes().len() <= usize::MAX,
        2 * b.spec_bytes().len() <= usize::MAX,
    ensures
        d == levenshtein_spec(a.spec_bytes(), b.spec_bytes(), max_cost as nat),
{
    let a_bytes: &[u8] = a.as_bytes();
    let b_bytes: &[u8] = b.as_bytes();
    if bytes_equal(a_bytes, b_bytes) {
        return 0;
    }
    let begin: usize = common_prefix(a_bytes, b_bytes);
    let a_rest: &[u8] = slice_subrange(a_bytes, begin, a_bytes.len());
    let b_rest: &[u8] = slice_subrange(b_bytes, begin, b_bytes.len());
    let tail: usize = common_suffix(a_rest, b_rest);
    let a_end: usize = a_rest.len() - tail;
    let b_end: usize = b_rest.len() - tail;
    let a_window: &[u8] = slice_subrange(a_rest, 0, a_end);
    let b_window: &[u8] = slice_subrange(b_rest, 0, b_end);
    proof {
        assert(a_rest@ == a_bytes@.skip(begin as int));
        assert(b_rest@ == b_bytes@.skip(begin as int));
        assert(a_window@ == windows(a_bytes@, b_bytes@).0);
        assert(b_window@ == windows(a_bytes@, b_bytes@).1);
    }
    if a_end == 0 || b_end == 0 {
        return (a_end + b_end) * MOVE_COST;
    }
    if a_end > MAX_STRING_SIZE || b_end > MAX_STRING_SIZE {
        return max_cost + 1;
    }
    if b_end < a_end {
        if (a_end - b_end) * MOVE_COST > max_cost {
            return max_cost + 1;
        }
        bounded_distance(b_window, a_window, max_cost)
    } else {
        if (b_end - a_end) * MOVE_COST > max_cost {
            return max_cost + 1;
        }
        bounded_distance(a_window, b_window, max_cost)
    }
}

} // verus!
