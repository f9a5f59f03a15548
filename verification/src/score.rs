//! The two kinds of number the index works with.
//!
//! A [`Ratio`] is an overlap between two sketches before it is divided out:
//! a count of shared hashes over the size it is normalised by. A [`Score`] is
//! a binary64 number, such as a threshold or a ratio after division, held by
//! its bit pattern. Everything here is integer arithmetic on those patterns;
//! the order it defines is the numeric order of the numbers they encode.

use vstd::prelude::*;

use crate::rounding;
use crate::rounding::{INFINITY_BITS, ONE_BITS};

verus! {

/// Bit pattern of the sign bit of a binary64 number.
pub const SIGN_BIT: u64 = 0x8000_0000_0000_0000;

/// A count of shared elements over the size it is normalised by.
///
/// The quotient is left undivided so that it stays exact. A denominator of
/// zero is allowed: `0/0` is undefined and `n/0` with `n > 0` is infinite.
#[derive(Clone, Copy, Debug, PartialEq, Eq, Structural)]
pub struct Ratio {
    pub numerator: u64,
    pub denominator: u64,
}

impl Ratio {
    /// The ratio `0/1`.
    pub open spec fn spec_zero() -> Ratio {
        Ratio { numerator: 0, denominator: 1 }
    }

    /// The ratio `0/1`, which divides out to zero.
    #[verifier::when_used_as_spec(spec_zero)]
    pub fn zero() -> (r: Ratio)
        ensures
            r == Ratio::spec_zero(),
    {
        Ratio { numerator: 0, denominator: 1 }
    }

    /// True when the quotient is a number in the closed interval from 0 to 1.
    pub open spec fn is_fraction(self) -> bool {
        self.denominator != 0 && self.numerator <= self.denominator
    }

    /// The quotient as a binary64 number: numerator and denominator are
    /// each rounded to one, and so is the quotient of the two. `0/0` is a
    /// NaN and `n/0` is infinite.
    pub open spec fn quotient(self) -> Score {
        Score { bits: rounding::quotient_bits(self.numerator, self.denominator) }
    }

    /// Divides the ratio out, as binary64 arithmetic does. A count over one
    /// that is no smaller gives a number from 0 to 1.
    pub fn to_score(self) -> (score: Score)
        ensures
            score == self.quotient(),
            self.is_fraction() ==> score.in_unit_interval(),
    {
        proof {
            if self.is_fraction() {
                lemma_fraction_divides_into_unit_interval(self);
            }
        }
        Score { bits: rounding::divide(self.numerator, self.denominator) }
    }
}

/// A binary64 number, given by its 64-bit pattern.
///
/// The pattern is one sign bit, eleven exponent bits and fifty-two fraction
/// bits. Among the patterns that are not NaN, a larger magnitude (the pattern
/// without its sign bit) is a number further from zero, so the numeric order
/// can be read off the integers: see [`Score::rank`].
#[derive(Clone, Copy, Debug)]
pub struct Score {
    pub bits: u64,
}

impl Score {
    /// The pattern without its sign bit.
    pub open spec fn magnitude(self) -> int {
        if self.bits >= SIGN_BIT {
            self.bits - SIGN_BIT
        } else {
            self.bits as int
        }
    }

    /// True when the pattern encodes no number.
    pub open spec fn nan(self) -> bool {
        self.magnitude() > INFINITY_BITS
    }

    /// An integer that orders the patterns as the numbers they encode:
    /// for `a` and `b` that are not NaN, `a < b` as numbers exactly when
    /// `a.rank() < b.rank()`. Both zeros have rank 0.
    pub open spec fn rank(self) -> int {
        if self.bits >= SIGN_BIT {
            -self.magnitude()
        } else {
            self.magnitude()
        }
    }

    /// `self > 0` as numbers; false of a NaN.
    pub open spec fn positive(self) -> bool {
        !self.nan() && self.rank() > 0
    }

    /// `self >= other` as numbers; false when either is a NaN.
    pub open spec fn spec_ge(self, other: Score) -> bool {
        !self.nan() && !other.nan() && self.rank() >= other.rank()
    }

    /// `self > other` as numbers; false when either is a NaN.
    pub open spec fn spec_gt(self, other: Score) -> bool {
        !self.nan() && !other.nan() && self.rank() > other.rank()
    }

    /// `self < other` as numbers; false when either is a NaN.
    pub open spec fn spec_lt(self, other: Score) -> bool {
        other.spec_gt(self)
    }

    /// True of the numbers from 0 to 1.
    pub open spec fn in_unit_interval(self) -> bool {
        self.spec_ge(Score { bits: 0 }) && (Score { bits: ONE_BITS }).spec_ge(self)
    }

    /// The larger of two numbers, where a NaN loses to anything and the
    /// first wins a tie.
    pub open spec fn spec_max(self, other: Score) -> Score {
        if other.nan() {
            self
        } else if self.nan() {
            other
        } else if other.rank() > self.rank() {
            other
        } else {
            self
        }
    }

    /// Whether a score is accepted under a threshold: it is above zero and
    /// not below the threshold. A score of zero is never accepted, whatever
    /// the threshold.
    pub open spec fn spec_clears(self, threshold: Score) -> bool {
        self.positive() && self.spec_ge(threshold)
    }

    /// The score with the given bit pattern.
    pub fn from_bits(bits: u64) -> (s: Score)
        ensures
            s.bits == bits,
    {
        Score { bits }
    }

    /// The bit pattern of the score.
    pub fn to_bits(self) -> (bits: u64)
        ensures
            bits == self.bits,
    {
        self.bits
    }

    /// Positive zero.
    pub fn zero() -> (s: Score)
        ensures
            s.bits == 0,
    {
        Score { bits: 0 }
    }

    fn magnitude_bits(self) -> (m: u64)
        ensures
            m == self.magnitude(),
    {
        if self.bits >= SIGN_BIT {
            self.bits - SIGN_BIT
        } else {
            self.bits
        }
    }

    /// True when the score is not a number.
    pub fn is_nan(self) -> (b: bool)
        ensures
            b == self.nan(),
    {
        self.magnitude_bits() > INFINITY_BITS
    }

    /// True when the score is a number above zero.
    pub fn is_positive(self) -> (b: bool)
        ensures
            b == self.positive(),
    {
        self.bits < SIGN_BIT && 0 < self.bits && self.bits <= INFINITY_BITS
    }

    /// `self > other` as numbers.
    pub fn gt(self, other: Score) -> (b: bool)
        ensures
            b == self.spec_gt(other),
    {
        if self.is_nan() || other.is_nan() {
            return false;
        }
        let a: u64 = self.magnitude_bits();
        let b: u64 = other.magnitude_bits();
        if self.bits >= SIGN_BIT {
            // self <= 0: only a more negative number lies below it
            other.bits >= SIGN_BIT && b > a
        } else if other.bits >= SIGN_BIT {
            a > 0 || b > 0
        } else {
            a > b
        }
    }

    /// `self >= other` as numbers.
    pub fn ge(self, other: Score) -> (b: bool)
        ensures
            b == self.spec_ge(other),
    {
        if self.is_nan() || other.is_nan() {
            return false;
        }
        !other.gt(self)
    }

    /// The larger of the two, as [`Score::spec_max`] defines it.
    pub fn max(self, other: Score) -> (m: Score)
        ensures
            m == self.spec_max(other),
    {
        if other.is_nan() {
            self
        } else if self.is_nan() {
            other
        } else if other.gt(self) {
            other
        } else {
            self
        }
    }

    /// What a threshold with the bit pattern `held` becomes when a match
    /// with `score` is collected. Where only the best match is wanted it is
    /// raised to at least `score`: the result is the bit pattern of the
    /// maximum of the two. Else it stays as it is: the result is `None`.
    pub fn raised_bits(held: u64, score: Score, best_only: bool) -> (bits: Option<u64>)
        ensures
            bits == Score::spec_raised_bits(held, score, best_only),
    {
        if best_only {
            Some(Score::from_bits(held).max(score).to_bits())
        } else {
            None
        }
    }

    /// The new bit pattern of a threshold with the bit pattern `held` after
    /// a match with `score` is collected, or `None` where it is to stay.
    pub open spec fn spec_raised_bits(held: u64, score: Score, best_only: bool) -> Option<u64> {
        if best_only {
            Some((Score { bits: held }).spec_max(score).bits)
        } else {
            None
        }
    }

    /// Whether this score is accepted under `threshold`: true exactly when
    /// the score is above zero and at least the threshold.
    pub fn clears(self, threshold: Score) -> (b: bool)
        ensures
            b == self.spec_clears(threshold),
    {
        self.is_positive() && self.ge(threshold)
    }
}

/// A count over one that is no smaller divides out to a number from 0
/// to 1.
pub proof fn lemma_fraction_divides_into_unit_interval(ratio: Ratio)
    requires
        ratio.is_fraction(),
    ensures
        ratio.quotient().in_unit_interval(),
{
    rounding::lemma_fraction_is_at_most_one(ratio.numerator, ratio.denominator);
}

} // verus!
