//! The mathematical model of a decimal: an unbounded significand and scale.

use crate::scale::{fits, lemma_pow10_unfold, lemma_scaling_grows, pow10};
use vstd::math::abs;
use vstd::prelude::*;

verus! {

/// A decimal as mathematics sees it: the number `significand / 10^scale`.
///
/// Two models with different fields may stand for the same number, as
/// `1200 / 10^2` and `12 / 10^0` do.
pub struct Fixed {
    pub significand: int,
    pub scale: nat,
}

/// The quotient `n / d` rounded to the nearest integer, a tie going away from zero.
pub open spec fn round_half_away(n: int, d: int) -> int
    recommends
        d != 0,
{
    let q = ((2 * abs(n) + abs(d)) / (2 * abs(d))) as int;
    if (n < 0) == (d < 0) {
        q
    } else {
        -q
    }
}

impl Fixed {
    /// Whether a stored decimal can hold these fields.
    pub open spec fn representable(self) -> bool {
        fits(self.significand) && self.scale <= u32::MAX
    }

    /// The larger of the two scales.
    pub open spec fn common_scale(self, other: Fixed) -> nat {
        if self.scale >= other.scale {
            self.scale
        } else {
            other.scale
        }
    }

    /// The significand that stands for the same number at `scale`.
    pub open spec fn aligned(self, scale: nat) -> int
        recommends
            scale >= self.scale,
    {
        self.significand * pow10((scale - self.scale) as nat)
    }

    /// Aligning to the own scale changes nothing; aligning to a larger one
    /// keeps the sign and moves the significand away from zero, if at all.
    pub proof fn lemma_aligned_grows(self, scale: nat)
        requires
            scale >= self.scale,
        ensures
            scale == self.scale ==> self.aligned(scale) == self.significand,
            self.significand > 0 ==> self.aligned(scale) >= self.significand,
            self.significand < 0 ==> self.aligned(scale) <= self.significand,
            self.significand == 0 ==> self.aligned(scale) == 0,
    {
        lemma_pow10_unfold(0);
        lemma_scaling_grows(self.significand, (scale - self.scale) as nat);
    }

    /// Whether both significands stay in range once brought to the common scale.
    pub open spec fn aligns_with(self, other: Fixed) -> bool {
        let m = self.common_scale(other);
        fits(self.aligned(m)) && fits(other.aligned(m))
    }

    /// Whether the two models stand for the same number.
    pub open spec fn same_value(self, other: Fixed) -> bool {
        let m = self.common_scale(other);
        self.aligned(m) == other.aligned(m)
    }

    /// Whether the number of `self` is smaller than that of `other`.
    pub open spec fn below(self, other: Fixed) -> bool {
        let m = self.common_scale(other);
        self.aligned(m) < other.aligned(m)
    }

    /// Whether no trailing zero is left to take off: the scale is zero or
    /// the significand is no multiple of ten.
    pub open spec fn is_normal(self) -> bool {
        self.scale == 0 || self.significand % 10 != 0
    }

    /// The same number at the smallest scale that can hold it: trailing
    /// zeros of the significand are taken off while the scale allows it.
    pub open spec fn normal(self) -> Fixed
        decreases self.scale,
    {
        if self.scale > 0 && self.significand % 10 == 0 {
            (Fixed {
                significand: self.significand / 10,
                scale: (self.scale - 1) as nat,
            }).normal()
        } else {
            self
        }
    }

    /// The sum, at the common scale.
    pub open spec fn sum(self, other: Fixed) -> Fixed {
        let m = self.common_scale(other);
        Fixed { significand: self.aligned(m) + other.aligned(m), scale: m }
    }

    /// The difference, at the common scale.
    pub open spec fn difference(self, other: Fixed) -> Fixed {
        let m = self.common_scale(other);
        Fixed { significand: self.aligned(m) - other.aligned(m), scale: m }
    }

    /// The product: significands multiplied, scales added.
    pub open spec fn product(self, other: Fixed) -> Fixed {
        Fixed {
            significand: self.significand * other.significand,
            scale: self.scale + other.scale,
        }
    }

    /// The dividend's significand scaled so that dividing it by the divisor's
    /// significand gives the quotient's significand at the common scale.
    pub open spec fn dividend(self, other: Fixed) -> int {
        let m = self.common_scale(other);
        self.aligned(m) * pow10(other.scale)
    }

    /// The quotient at the common scale, rounded half away from zero.
    pub open spec fn quotient(self, other: Fixed) -> Fixed
        recommends
            other.significand != 0,
    {
        Fixed {
            significand: round_half_away(self.dividend(other), other.significand),
            scale: self.common_scale(other),
        }
    }
}

} // verus!
