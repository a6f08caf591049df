//! A single in-flight or pending candidate match: a trie cursor plus
//! provenance, and the severity scaling applied when a match commits.

use vstd::prelude::*;

use crate::typ::{ANY_BITS, SAFE_BITS, SPAM_BITS};

verus! {

/// Sentinel for a match that has not reached a terminal yet.
pub const NO_END: usize = usize::MAX;

/// Sentinel for a match that has not consumed a character yet.
pub const NO_LAST: char = '\u{0}';

/// One candidate match.
#[derive(Clone, Copy, PartialEq, Eq, Structural, Debug)]
pub struct Match {
    /// Current trie node.
    pub node: usize,
    /// Canonical position where the match began.
    pub start: usize,
    /// Canonical position of the last matched character (`NO_END` until the
    /// match reaches a terminal).
    pub end: usize,
    /// Last character consumed by the match (`NO_LAST` before the first).
    pub last: char,
    /// Whether a separator (or the start of input) preceded `start`.
    pub space_before: bool,
    /// Whether a separator followed the terminal character.
    pub space_after: bool,
    /// How many inserted separators or substitutions were tolerated inside
    /// the match.
    pub spaces: u8,
}

/// The identity key of a match: everything but `end` and `space_after`, so
/// that equivalent candidates merge.
pub open spec fn spec_same_key(a: Match, b: Match) -> bool {
    a.node == b.node && a.start == b.start && a.last == b.last && a.spaces == b.spaces
        && a.space_before == b.space_before
}

/// Merging two matches with one identity key: the smaller gap count, the
/// disjunction of the boundary flags, and whichever `end` was set.
pub open spec fn spec_combine(a: Match, b: Match) -> Match {
    Match {
        node: a.node,
        start: a.start,
        last: a.last,
        spaces: if a.spaces <= b.spaces {
            a.spaces
        } else {
            b.spaces
        },
        space_before: a.space_before || b.space_before,
        space_after: a.space_after || b.space_after,
        end: if a.end != NO_END {
            a.end
        } else {
            b.end
        },
    }
}

impl Match {
    /// Whether two candidates share one identity key.
    pub fn same_key(&self, other: &Match) -> (r: bool)
        ensures
            r == spec_same_key(*self, *other),
    {
        self.node == other.node && self.start == other.start && self.last == other.last
            && self.spaces == other.spaces && self.space_before == other.space_before
    }

    /// Merges this candidate with another of the same identity key.
    pub fn combine(&self, other: &Match) -> (r: Match)
        ensures
            r == spec_combine(*self, *other),
    {
        Match {
            node: self.node,
            start: self.start,
            last: self.last,
            spaces: if self.spaces <= other.spaces {
                self.spaces
            } else {
                other.spaces
            },
            space_before: self.space_before || other.space_before,
            space_after: self.space_after || other.space_after,
            end: if self.end != NO_END {
                self.end
            } else {
                other.end
            },
        }
    }
}

/// One three-bit severity field lowered by one level per tolerated gap.
pub open spec fn spec_scale_field(f: u32, spaces: u8) -> u32 {
    if spaces >= 3 {
        0u32
    } else if spaces == 2 {
        f >> 2u32
    } else if spaces == 1 {
        f >> 1u32
    } else {
        f
    }
}

/// A terminal's type lowered by one severity level per tolerated gap, per
/// category field.  The SAFE bit never survives scaling: it contributes
/// through the safety flag, not through the accumulated type.
pub open spec fn spec_scale(t: u32, spaces: u8) -> u32 {
    spec_scale_field(t & 0b111, spaces) | (spec_scale_field((t >> 3) & 0b111, spaces) << 3) | (
    spec_scale_field((t >> 6) & 0b111, spaces) << 6) | (spec_scale_field((t >> 9) & 0b111, spaces)
        << 9) | (spec_scale_field((t >> 12) & 0b111, spaces) << 12) | (spec_scale_field(
        (t >> 15) & 0b111,
        spaces,
    ) << 15)
}

/// One three-bit field lowered by one level per gap.
fn scale_field(f: u32, spaces: u8) -> (r: u32)
    ensures
        r == spec_scale_field(f, spaces),
{
    if spaces >= 3 {
        0
    } else if spaces == 2 {
        f >> 2u32
    } else if spaces == 1 {
        f >> 1u32
    } else {
        f
    }
}

/// A terminal's type lowered by one severity level per tolerated gap.
pub fn scale_typ(t: u32, spaces: u8) -> (r: u32)
    ensures
        r == spec_scale(t, spaces),
{
    scale_field(t & 0b111, spaces) | (scale_field((t >> 3) & 0b111, spaces) << 3) | (scale_field(
        (t >> 6) & 0b111,
        spaces,
    ) << 6) | (scale_field((t >> 9) & 0b111, spaces) << 9) | (scale_field((t >> 12) & 0b111, spaces)
        << 12) | (scale_field((t >> 15) & 0b111, spaces) << 15)
}

/// Scaling never invents bits outside the six category fields, and a type
/// with no spam bits stays spam-free after scaling.
pub proof fn lemma_scale_spam_free(t: u32, spaces: u8)
    requires
        t & SPAM_BITS == 0,
    ensures
        spec_scale(t, spaces) & SPAM_BITS == 0,
{
    if spaces == 0 {
        assert(((t & 0b111) | (((t >> 3) & 0b111) << 3) | (((t >> 6) & 0b111) << 6) | (((t >> 9)
            & 0b111) << 9) | (((t >> 12) & 0b111) << 12) | (((t >> 15) & 0b111) << 15))
            & 0b0_111_000_000_000_000_000u32 == 0) by (bit_vector)
            requires
                t & 0b0_111_000_000_000_000_000u32 == 0,
        ;
    } else if spaces == 1 {
        assert((((t & 0b111) >> 1u32) | ((((t >> 3) & 0b111) >> 1u32) << 3) | ((((t >> 6) & 0b111)
            >> 1u32) << 6) | ((((t >> 9) & 0b111) >> 1u32) << 9) | ((((t >> 12) & 0b111) >> 1u32)
            << 12) | ((((t >> 15) & 0b111) >> 1u32) << 15)) & 0b0_111_000_000_000_000_000u32 == 0)
            by (bit_vector)
            requires
                t & 0b0_111_000_000_000_000_000u32 == 0,
        ;
    } else if spaces == 2 {
        assert((((t & 0b111) >> 2u32) | ((((t >> 3) & 0b111) >> 2u32) << 3) | ((((t >> 6) & 0b111)
            >> 2u32) << 6) | ((((t >> 9) & 0b111) >> 2u32) << 9) | ((((t >> 12) & 0b111) >> 2u32)
            << 12) | ((((t >> 15) & 0b111) >> 2u32) << 15)) & 0b0_111_000_000_000_000_000u32 == 0)
            by (bit_vector)
            requires
                t & 0b0_111_000_000_000_000_000u32 == 0,
        ;
    } else {
        assert((0u32 | (0u32 << 3) | (0u32 << 6) | (0u32 << 9) | (0u32 << 12) | (0u32 << 15))
            & 0b0_111_000_000_000_000_000u32 == 0) by (bit_vector);
    }
}

/// Scaling assembles only the six category fields, so the SAFE bit never
/// appears in a scaled type, whatever the terminal carried.
pub proof fn lemma_scale_no_safe(t: u32, spaces: u8)
    ensures
        spec_scale(t, spaces) & SAFE_BITS == 0,
{
    if spaces == 0 {
        assert(((t & 0b111) | (((t >> 3) & 0b111) << 3) | (((t >> 6) & 0b111) << 6) | (((t >> 9)
            & 0b111) << 9) | (((t >> 12) & 0b111) << 12) | (((t >> 15) & 0b111) << 15))
            & 0b1_000_000_000_000_000_000u32 == 0) by (bit_vector);
    } else if spaces == 1 {
        assert((((t & 0b111) >> 1u32) | ((((t >> 3) & 0b111) >> 1u32) << 3) | ((((t >> 6) & 0b111)
            >> 1u32) << 6) | ((((t >> 9) & 0b111) >> 1u32) << 9) | ((((t >> 12) & 0b111) >> 1u32)
            << 12) | ((((t >> 15) & 0b111) >> 1u32) << 15)) & 0b1_000_000_000_000_000_000u32 == 0)
            by (bit_vector);
    } else if spaces == 2 {
        assert((((t & 0b111) >> 2u32) | ((((t >> 3) & 0b111) >> 2u32) << 3) | ((((t >> 6) & 0b111)
            >> 2u32) << 6) | ((((t >> 9) & 0b111) >> 2u32) << 9) | ((((t >> 12) & 0b111) >> 2u32)
            << 12) | ((((t >> 15) & 0b111) >> 2u32) << 15)) & 0b1_000_000_000_000_000_000u32 == 0)
            by (bit_vector);
    } else {
        assert((0u32 | (0u32 << 3) | (0u32 << 6) | (0u32 << 9) | (0u32 << 12) | (0u32 << 15))
            & 0b1_000_000_000_000_000_000u32 == 0) by (bit_vector);
    }
}

/// Scaling by zero gaps keeps the six category fields exactly.
pub proof fn lemma_scale_zero(t: u32)
    ensures
        spec_scale(t, 0) == t & ANY_BITS,
{
    assert((t & 0b111) | (((t >> 3) & 0b111) << 3) | (((t >> 6) & 0b111) << 6) | (((t >> 9)
        & 0b111) << 9) | (((t >> 12) & 0b111) << 12) | (((t >> 15) & 0b111) << 15) == t
        & 0b0_111_111_111_111_111_111u32) by (bit_vector);
}

} // verus!
