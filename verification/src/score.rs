//! Similarity scores.
//!
//! A score is kept as the bit pattern of a single-precision number. The patterns of numbers
//! that are not negative have the order of the numbers, so scores are compared as integers.

use vstd::prelude::*;

use crate::outside;

verus! {

/// A single-precision number, by its bit pattern.
#[derive(Debug, Clone, Copy, PartialEq, Eq, Structural)]
pub struct Score {
    pub bits: u32,
}

/// The bit pattern of the single-precision number one.
pub const ONE_BITS: u32 = 0x3f80_0000;

/// The bit pattern of the threshold that holds where none is given, eight tenths.
pub const DEFAULT_THRESHOLD_BITS: u32 = 0x3f4c_cccd;

/// The bit pattern of the negative zero.
pub const NEGATIVE_ZERO_BITS: u32 = 0x8000_0000;

/// How many double-precision patterns lie between one single-precision pattern and the next.
pub const STEP: u64 = 0x2000_0000;

/// The difference of the two exponent offsets, in place.
pub const EXPONENT_SHIFT: u64 = 0x1_c000_0000;

/// The double-precision pattern of the number that a single-precision pattern writes, for
/// numbers that are neither zero, nor subnormal, nor infinite.
pub open spec fn widened(bits: int) -> int {
    (bits + EXPONENT_SHIFT) * STEP
}

/// The single-precision pattern nearest to a double-precision pattern; of two that are equally
/// near, the even one.
pub open spec fn narrowed(bits: u64) -> u32 {
    if bits == 0 {
        0
    } else {
        let low = bits / STEP - EXPONENT_SHIFT;
        let rest = bits % STEP;
        if rest * 2 > STEP || (rest * 2 == STEP && low % 2 == 1) {
            (low + 1) as u32
        } else {
            low as u32
        }
    }
}

/// How alike two texts are.
pub open spec fn similarity(query: Seq<char>, matched: Seq<char>) -> Score {
    Score { bits: narrowed(outside::ratio_bits(query, matched)) }
}

/// Whether a pattern writes no number.
pub open spec fn not_a_number(bits: u32) -> bool {
    bits % NEGATIVE_ZERO_BITS > 0x7f80_0000
}

/// A threshold brought into the range from zero to one.
pub open spec fn bounded_threshold(threshold: Score) -> Score {
    let bits = threshold.bits;
    if not_a_number(bits) {
        threshold
    } else if bits > NEGATIVE_ZERO_BITS {
        Score { bits: 0 }
    } else if bits < NEGATIVE_ZERO_BITS && bits > ONE_BITS {
        Score { bits: ONE_BITS }
    } else {
        threshold
    }
}

/// Whether a score is at least as high as a bounded threshold.
pub open spec fn reaches(score: Score, threshold: Score) -> bool {
    !not_a_number(threshold.bits) && (threshold.bits == NEGATIVE_ZERO_BITS || score.bits
        >= threshold.bits)
}

/// Law: narrowing rounds to the nearest pattern, and keeps the range from zero to one.
pub proof fn law_narrowed_nearest(bits: u64)
    requires
        outside::LEAST_RATIO_BITS <= bits <= outside::ONE_F64_BITS,
    ensures
        0 < narrowed(bits) <= ONE_BITS,
        forall|other: u32|
            0 < other <= ONE_BITS ==> {
                let near = widened(narrowed(bits) as int) - bits;
                let far = #[trigger] widened(other as int) - bits;
                -far <= near <= far || far <= near <= -far
            },
        narrowed(outside::ONE_F64_BITS) == ONE_BITS,
{
    let low = bits / STEP - EXPONENT_SHIFT;
    let rest = bits % STEP;
    assert(widened(low) == bits - rest);
    assert(widened(low + 1) == bits - rest + STEP);
    assert forall|other: u32| 0 < other <= ONE_BITS implies {
        let near = widened(narrowed(bits) as int) - bits;
        let far = #[trigger] widened(other as int) - bits;
        -far <= near <= far || far <= near <= -far
    } by {
        if other <= low {
            assert(widened(other as int) <= widened(low));
        } else {
            assert(widened(other as int) >= widened(low + 1));
        }
    }
}

/// How alike two texts are, from zero to one.
pub fn similarity_score(query: &str, matched: &str) -> (score: Score)
    ensures
        score == similarity(query@, matched@),
        score.bits <= ONE_BITS,
        query@ == matched@ ==> score.bits == ONE_BITS,
{
    let bits = outside::fuzz_ratio(query, matched);
    if bits == 0 {
        return Score { bits: 0 };
    }
    proof {
        law_narrowed_nearest(bits);
    }
    let low = bits / STEP - EXPONENT_SHIFT;
    let rest = bits % STEP;
    if rest * 2 > STEP || (rest * 2 == STEP && low % 2 == 1) {
        Score { bits: (low + 1) as u32 }
    } else {
        Score { bits: low as u32 }
    }
}

/// Brings a threshold into the range from zero to one; what is not a number stays as it is.
pub fn bound_threshold(threshold: Score) -> (r: Score)
    ensures
        r == bounded_threshold(threshold),
{
    let bits = threshold.bits;
    if bits % NEGATIVE_ZERO_BITS > 0x7f80_0000 {
        threshold
    } else if bits > NEGATIVE_ZERO_BITS {
        Score { bits: 0 }
    } else if bits < NEGATIVE_ZERO_BITS && bits > ONE_BITS {
        Score { bits: ONE_BITS }
    } else {
        threshold
    }
}

/// Whether a score is at least as high as a bounded threshold. No score reaches a threshold
/// that is not a number.
pub fn score_reaches(score: Score, threshold: Score) -> (r: bool)
    ensures
        r == reaches(score, threshold),
{
    threshold.bits % NEGATIVE_ZERO_BITS <= 0x7f80_0000 && (threshold.bits == NEGATIVE_ZERO_BITS
        || score.bits >= threshold.bits)
}

} // verus!
