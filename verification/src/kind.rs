//! The encoding class of a buffer and its join.

use crate::codepoint::{is_scalar_value, CodePoint};
use vstd::prelude::*;

verus! {

/// The least encoding able to hold a text: `Ascii` below `Utf8` below `Wtf8`.
#[derive(Debug, Copy, Clone, PartialEq, Eq, Structural, Ord)]
pub enum StrKind {
    Ascii,
    Utf8,
    Wtf8,
}

impl StrKind {
    /// Position in the order `Ascii < Utf8 < Wtf8`.
    pub open spec fn rank(self) -> nat {
        match self {
            StrKind::Ascii => 0,
            StrKind::Utf8 => 1,
            StrKind::Wtf8 => 2,
        }
    }

    /// The least class that is at least `self` and at least `other`.
    pub open spec fn join(self, other: StrKind) -> StrKind {
        if self == StrKind::Wtf8 || other == StrKind::Wtf8 {
            StrKind::Wtf8
        } else if self == StrKind::Utf8 || other == StrKind::Utf8 {
            StrKind::Utf8
        } else {
            StrKind::Ascii
        }
    }

    /// Whether a text of this class may hold the code point `code`.
    pub open spec fn encodes(self, code: u32) -> bool {
        match self {
            StrKind::Ascii => code < 0x80,
            StrKind::Utf8 => is_scalar_value(code),
            StrKind::Wtf8 => true,
        }
    }

    fn level(&self) -> (n: u8)
        ensures
            n == self.rank(),
    {
        match self {
            StrKind::Ascii => 0,
            StrKind::Utf8 => 1,
            StrKind::Wtf8 => 2,
        }
    }

    /// Whether this is the class `Ascii`.
    pub fn is_ascii(&self) -> (b: bool)
        ensures
            b == (*self == StrKind::Ascii),
    {
        matches!(self, StrKind::Ascii)
    }

    /// True of `Ascii` too: every ASCII text is UTF-8 text.
    pub fn is_utf8(&self) -> (b: bool)
        ensures
            b == (*self != StrKind::Wtf8),
    {
        matches!(self, StrKind::Ascii | StrKind::Utf8)
    }

    /// Whether a text of this class may hold `code`: any code point for
    /// `Wtf8`, any but a surrogate for `Utf8`, those below `0x80` for
    /// `Ascii`.
    pub fn can_encode(&self, code: CodePoint) -> (b: bool)
        ensures
            b == self.encodes(code@),
    {
        match self {
            StrKind::Ascii => code.is_ascii(),
            StrKind::Utf8 => code.to_char().is_some(),
            StrKind::Wtf8 => true,
        }
    }
}

impl PartialOrd for StrKind {
    /// Compares two classes by what they can hold: `Ascii < Utf8 < Wtf8`.
    fn partial_cmp(&self, other: &StrKind) -> (r: Option<core::cmp::Ordering>) {
        let a: u8 = self.level();
        let b: u8 = other.level();
        if a < b {
            Some(core::cmp::Ordering::Less)
        } else if a == b {
            Some(core::cmp::Ordering::Equal)
        } else {
            Some(core::cmp::Ordering::Greater)
        }
    }
}

impl vstd::std_specs::cmp::PartialOrdSpecImpl for StrKind {
    open spec fn obeys_partial_cmp_spec() -> bool {
        true
    }

    open spec fn partial_cmp_spec(&self, other: &StrKind) -> Option<core::cmp::Ordering> {
        if self.rank() < other.rank() {
            Some(core::cmp::Ordering::Less)
        } else if self.rank() == other.rank() {
            Some(core::cmp::Ordering::Equal)
        } else {
            Some(core::cmp::Ordering::Greater)
        }
    }
}

impl core::ops::BitOr for StrKind {
    type Output = StrKind;

    /// The least class that can hold what `self` and `other` can hold.
    fn bitor(self, other: StrKind) -> (r: StrKind) {
        match (self, other) {
            (StrKind::Wtf8, _) | (_, StrKind::Wtf8) => StrKind::Wtf8,
            (StrKind::Utf8, _) | (_, StrKind::Utf8) => StrKind::Utf8,
            (StrKind::Ascii, StrKind::Ascii) => StrKind::Ascii,
        }
    }
}

impl vstd::std_specs::ops::BitOrSpecImpl for StrKind {
    open spec fn obeys_bitor_spec() -> bool {
        true
    }

    open spec fn bitor_req(self, rhs: StrKind) -> bool {
        true
    }

    open spec fn bitor_spec(self, rhs: StrKind) -> StrKind {
        self.join(rhs)
    }
}

/// The join does not depend on the order of its operands.
pub proof fn lemma_join_commutative(a: StrKind, b: StrKind)
    ensures
        a.join(b) == b.join(a),
{
}

/// Joining three classes gives the same class however they are grouped.
pub proof fn lemma_join_associative(a: StrKind, b: StrKind, c: StrKind)
    ensures
        a.join(b).join(c) == a.join(b.join(c)),
{
}

/// A class joined with itself is that class.
pub proof fn lemma_join_idempotent(a: StrKind)
    ensures
        a.join(a) == a,
{
}

/// The join is the least upper bound of its operands in the order
/// `Ascii < Utf8 < Wtf8`.
pub proof fn lemma_join_least_upper_bound(a: StrKind, b: StrKind, c: StrKind)
    ensures
        a.rank() <= a.join(b).rank(),
        b.rank() <= a.join(b).rank(),
        a.rank() <= c.rank() && b.rank() <= c.rank() ==> a.join(b).rank() <= c.rank(),
{
}

/// A higher class holds every code point that a lower class holds, so the
/// join of two classes holds every code point that either of them holds.
pub proof fn lemma_join_encodes(a: StrKind, b: StrKind, code: u32)
    ensures
        a.rank() <= b.rank() && a.encodes(code) ==> b.encodes(code),
        a.encodes(code) || b.encodes(code) ==> a.join(b).encodes(code),
{
}

} // verus!
