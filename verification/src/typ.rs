//! The analysis bitmask: six three-bit category fields plus a SAFE bit.

use vstd::prelude::*;

verus! {

/// Bits of the profane category field.
pub const PROFANE_BITS: u32 = 0b0_000_000_000_000_000_111;
/// Bits of the offensive category field.
pub const OFFENSIVE_BITS: u32 = 0b0_000_000_000_000_111_000;
/// Bits of the sexual category field.
pub const SEXUAL_BITS: u32 = 0b0_000_000_000_111_000_000;
/// Bits of the mean category field.
pub const MEAN_BITS: u32 = 0b0_000_000_111_000_000_000;
/// Bits of the evasive category field.
pub const EVASIVE_BITS: u32 = 0b0_000_111_000_000_000_000;
/// Bits of the spam category field.
pub const SPAM_BITS: u32 = 0b0_111_000_000_000_000_000;
/// The positive "safe" signal bit.
pub const SAFE_BITS: u32 = 0b1_000_000_000_000_000_000;
/// The mild severity level of every category field.
pub const MILD_BITS: u32 = 0b0_111_111_111_111_111_111;
/// The moderate-or-severe levels of every category field.
pub const MODERATE_BITS: u32 = 0b0_110_110_110_110_110_110;
/// The severe level of every category field.
pub const SEVERE_BITS: u32 = 0b0_100_100_100_100_100_100;
/// Profane, offensive, sexual, or severely mean.
pub const INAPPROPRIATE_BITS: u32 = 0b0_000_000_100_111_111_111;
/// Every category field, but not SAFE.
pub const ANY_BITS: u32 = 0b0_111_111_111_111_111_111;

/// A type or severity of inappropriateness.  Values combine with
/// `union`/`intersect` and are not mutually exclusive.
#[derive(Clone, Copy, PartialEq, Eq, Structural, Debug, Hash)]
pub struct Type {
    pub bits: u32,
}

/// Severity bits assigned to one integer weight: three or more is severe.
pub open spec fn spec_severity(w: i8) -> u32 {
    if w >= 3 {
        0b100u32
    } else if w == 2 {
        0b010u32
    } else if w == 1 {
        0b001u32
    } else {
        0u32
    }
}

/// The weight that one three-bit severity field maps back to.
pub open spec fn spec_weight_of(bits: u32) -> i8 {
    if bits == 0 {
        0i8
    } else if bits & 0b001 != 0 {
        1i8
    } else if bits & 0b010 != 0 {
        2i8
    } else {
        3i8
    }
}

/// The mask built from the five category weights.
pub open spec fn spec_from_weights(w: Seq<i8>) -> u32
    recommends
        w.len() == 5,
{
    spec_severity(w[0]) | (spec_severity(w[1]) << 3) | (spec_severity(w[2]) << 6) | (spec_severity(
        w[3],
    ) << 9) | (spec_severity(w[4]) << 12)
}

impl Type {
    /// Bad words.
    pub fn profane() -> (t: Type)
        ensures
            t.bits == PROFANE_BITS,
    {
        Type { bits: PROFANE_BITS }
    }

    /// Offensive words.
    pub fn offensive() -> (t: Type)
        ensures
            t.bits == OFFENSIVE_BITS,
    {
        Type { bits: OFFENSIVE_BITS }
    }

    /// Sexual words.
    pub fn sexual() -> (t: Type)
        ensures
            t.bits == SEXUAL_BITS,
    {
        Type { bits: SEXUAL_BITS }
    }

    /// Mean words.
    pub fn mean() -> (t: Type)
        ensures
            t.bits == MEAN_BITS,
    {
        Type { bits: MEAN_BITS }
    }

    /// Words intended to evade detection.
    pub fn evasive() -> (t: Type)
        ensures
            t.bits == EVASIVE_BITS,
    {
        Type { bits: EVASIVE_BITS }
    }

    /// Spam, gibberish, or shouting.
    pub fn spam() -> (t: Type)
        ensures
            t.bits == SPAM_BITS,
    {
        Type { bits: SPAM_BITS }
    }

    /// One of a small number of whitelisted phrases.
    pub fn safe() -> (t: Type)
        ensures
            t.bits == SAFE_BITS,
    {
        Type { bits: SAFE_BITS }
    }

    /// Mild severity, in every category.
    pub fn mild() -> (t: Type)
        ensures
            t.bits == MILD_BITS,
    {
        Type { bits: MILD_BITS }
    }

    /// Moderate severity, in every category.
    pub fn moderate() -> (t: Type)
        ensures
            t.bits == MODERATE_BITS,
    {
        Type { bits: MODERATE_BITS }
    }

    /// Severe severity, in every category.
    pub fn severe() -> (t: Type)
        ensures
            t.bits == SEVERE_BITS,
    {
        Type { bits: SEVERE_BITS }
    }

    /// Profane, offensive, sexual, or severely mean.
    pub fn inappropriate() -> (t: Type)
        ensures
            t.bits == INAPPROPRIATE_BITS,
    {
        Type { bits: INAPPROPRIATE_BITS }
    }

    /// Any category of detection, except SAFE.
    pub fn any() -> (t: Type)
        ensures
            t.bits == ANY_BITS,
    {
        Type { bits: ANY_BITS }
    }

    /// No detection at all.
    pub fn none() -> (t: Type)
        ensures
            t.bits == 0,
    {
        Type { bits: 0 }
    }

    /// Whether no bit at all is set.
    pub fn is_empty(self) -> (r: bool)
        ensures
            r == (self.bits == 0),
    {
        self.bits == 0
    }

    /// True if and only if this analysis result meets the given threshold.
    pub fn is(self, threshold: Type) -> (r: bool)
        ensures
            r == (self.bits & threshold.bits != 0),
    {
        self.bits & threshold.bits != 0
    }

    /// Logical opposite of `is`.
    pub fn isnt(self, threshold: Type) -> (r: bool)
        ensures
            r == (self.bits & threshold.bits == 0),
    {
        self.bits & threshold.bits == 0
    }

    /// The bitwise disjunction of two masks.
    pub fn union(self, other: Type) -> (t: Type)
        ensures
            t.bits == self.bits | other.bits,
    {
        Type { bits: self.bits | other.bits }
    }

    /// The bitwise conjunction of two masks.
    pub fn intersect(self, other: Type) -> (t: Type)
        ensures
            t.bits == self.bits & other.bits,
    {
        Type { bits: self.bits & other.bits }
    }

    /// Builds a mask from five integer weights, one per category in the
    /// order profane, offensive, sexual, mean, evasive.  A weight of three
    /// or more is severe; SAFE and SPAM are never set this way.
    pub fn from_weights(weights: &[i8; 5]) -> (t: Type)
        ensures
            t.bits == spec_from_weights(weights@),
    {
        Type {
            bits: severity(weights[0]) | (severity(weights[1]) << 3) | (severity(weights[2]) << 6)
                | (severity(weights[3]) << 9) | (severity(weights[4]) << 12),
        }
    }

    /// Recovers the five weights from the five category fields; the
    /// inverse of `from_weights` on the one-hot domain.
    pub fn to_weights(self) -> (w: [i8; 5])
        ensures
            w@[0] == spec_weight_of(self.bits & 0b111),
            w@[1] == spec_weight_of((self.bits >> 3) & 0b111),
            w@[2] == spec_weight_of((self.bits >> 6) & 0b111),
            w@[3] == spec_weight_of((self.bits >> 9) & 0b111),
            w@[4] == spec_weight_of((self.bits >> 12) & 0b111),
    {
        [
            weight_of(self.bits & 0b111),
            weight_of((self.bits >> 3) & 0b111),
            weight_of((self.bits >> 6) & 0b111),
            weight_of((self.bits >> 9) & 0b111),
            weight_of((self.bits >> 12) & 0b111),
        ]
    }
}

impl Default for Type {
    /// A reasonable default threshold for censoring or blocking.
    fn default() -> (t: Self)
        ensures
            t.bits == INAPPROPRIATE_BITS,
    {
        Type { bits: INAPPROPRIATE_BITS }
    }
}

/// Severity bits of one integer weight.
fn severity(weight: i8) -> (s: u32)
    ensures
        s == spec_severity(weight),
{
    if weight >= 3 {
        0b100
    } else if weight == 2 {
        0b010
    } else if weight == 1 {
        0b001
    } else {
        0
    }
}

/// The weight that one three-bit severity field maps back to.
fn weight_of(bits: u32) -> (w: i8)
    ensures
        w == spec_weight_of(bits),
{
    if bits == 0 {
        0
    } else if bits & 0b001 != 0 {
        1
    } else if bits & 0b010 != 0 {
        2
    } else {
        3
    }
}

} // verus!
