//! Addition, subtraction, multiplication and division of decimals.

use crate::decimal::Decimal;
use crate::error::Error;
use crate::model::round_half_away;
use crate::scale::{fits, lemma_pow10_unfold, lemma_scaling_grows, scale_up};
use vstd::arithmetic::div_mod::lemma_fundamental_div_mod_converse;
use vstd::math::abs;
use vstd::prelude::*;

verus! {

/// The distance of `x` from zero.
pub fn magnitude(x: i128) -> (r: u128)
    ensures
        r == abs(x as int),
{
    if x >= 0 {
        x as u128
    } else if x == i128::MIN {
        0x8000_0000_0000_0000_0000_0000_0000_0000u128
    } else {
        (-x) as u128
    }
}

/// Divides `n` by `d` and rounds to the nearest integer, a tie going away
/// from zero. The result is `None` exactly when the rounded quotient is out
/// of a significand's range.
pub fn divide_rounded(n: i128, d: i128) -> (r: Option<i128>)
    requires
        d != 0,
    ensures
        fits(round_half_away(n as int, d as int)) ==> r == Some(
            round_half_away(n as int, d as int) as i128,
        ),
        !fits(round_half_away(n as int, d as int)) ==> r is None,
{
    let un: u128 = magnitude(n);
    let ud: u128 = magnitude(d);
    let whole: u128 = un / ud;
    let rest: u128 = un % ud;
    let q: u128 = if rest >= ud - rest {
        whole + 1
    } else {
        whole
    };
    proof {
        let dd: int = 2 * ud;
        let nn: int = 2 * un + ud;
        assert(un == whole * ud + rest) by (nonlinear_arith)
            requires
                ud > 0,
                whole == un / ud,
                rest == un % ud,
        ;
        if rest >= ud - rest {
            assert(nn == dd * (whole + 1) + (2 * rest - ud)) by (nonlinear_arith)
                requires
                    un == whole * ud + rest,
                    nn == 2 * un + ud,
                    dd == 2 * ud,
            ;
            lemma_fundamental_div_mod_converse(nn, dd, whole + 1, 2 * rest - ud);
        } else {
            assert(nn == dd * whole + (2 * rest + ud)) by (nonlinear_arith)
                requires
                    un == whole * ud + rest,
                    nn == 2 * un + ud,
                    dd == 2 * ud,
            ;
            lemma_fundamental_div_mod_converse(nn, dd, whole as int, 2 * rest + ud);
        }
        assert(q == nn / dd);
    }
    let limit: u128 = 0x8000_0000_0000_0000_0000_0000_0000_0000u128;
    if (n < 0) == (d < 0) {
        if q < limit {
            Some(q as i128)
        } else {
            None
        }
    } else if q < limit {
        Some(-(q as i128))
    } else if q == limit {
        Some(i128::MIN)
    } else {
        None
    }
}

/// Brings both significands to the common scale.
///
/// Returns the two aligned significands and the common scale, or `None`
/// exactly when one of the aligned significands is out of range.
pub fn align(a: &Decimal, b: &Decimal) -> (r: Option<(i128, i128, u32)>)
    ensures
        match r {
            Some((x, y, m)) => {
                &&& a@.aligns_with(b@)
                &&& m == a@.common_scale(b@)
                &&& x == a@.aligned(m as nat)
                &&& y == b@.aligned(m as nat)
            },
            None => !a@.aligns_with(b@),
        },
{
    proof {
        lemma_pow10_unfold(0);
        a.lemma_representable();
        b.lemma_representable();
    }
    let sa: u32 = a.scale();
    let sb: u32 = b.scale();
    if sa >= sb {
        match scale_up(b.significand(), sa - sb) {
            Some(y) => Some((a.significand(), y, sa)),
            None => None,
        }
    } else {
        match scale_up(a.significand(), sb - sa) {
            Some(x) => Some((x, b.significand(), sb)),
            None => None,
        }
    }
}

impl Decimal {
    /// The sum of the two decimals, at the larger of their scales.
    ///
    /// Fails with [`Error::Overflow`] exactly when an aligned significand or
    /// the sum of the two is out of range.
    pub fn add(&self, other: &Decimal) -> (r: Result<Decimal, Error>)
        ensures
            match r {
                Ok(d) => self@.aligns_with(other@) && d@ == self@.sum(other@),
                Err(e) => e == Error::Overflow && !(self@.aligns_with(other@) && self@.sum(
                    other@,
                ).representable()),
            },
    {
        match align(self, other) {
            Some((x, y, m)) => match x.checked_add(y) {
                Some(s) => Ok(Decimal::new(s, m)),
                None => Err(Error::Overflow),
            },
            None => Err(Error::Overflow),
        }
    }

    /// The difference of the two decimals, at the larger of their scales.
    ///
    /// Fails with [`Error::Overflow`] exactly when an aligned significand or
    /// the difference of the two is out of range.
    pub fn sub(&self, other: &Decimal) -> (r: Result<Decimal, Error>)
        ensures
            match r {
                Ok(d) => self@.aligns_with(other@) && d@ == self@.difference(other@),
                Err(e) => e == Error::Overflow && !(self@.aligns_with(other@)
                    && self@.difference(other@).representable()),
            },
    {
        match align(self, other) {
            Some((x, y, m)) => match x.checked_sub(y) {
                Some(s) => Ok(Decimal::new(s, m)),
                None => Err(Error::Overflow),
            },
            None => Err(Error::Overflow),
        }
    }

    /// The product of the two decimals. Its scale is the sum of their scales.
    ///
    /// Fails with [`Error::Overflow`] exactly when the product of the
    /// significands or the sum of the scales is out of range.
    pub fn mul(&self, other: &Decimal) -> (r: Result<Decimal, Error>)
        ensures
            match r {
                Ok(d) => d@ == self@.product(other@),
                Err(e) => e == Error::Overflow && !self@.product(other@).representable(),
            },
    {
        match self.significand().checked_mul(other.significand()) {
            Some(p) => match self.scale().checked_add(other.scale()) {
                Some(s) => Ok(Decimal::new(p, s)),
                None => Err(Error::Overflow),
            },
            None => Err(Error::Overflow),
        }
    }

    /// The quotient of the two decimals at the larger of their scales,
    /// rounded half away from zero.
    ///
    /// The dividend's significand is brought to the larger scale and then
    /// raised by the divisor's scale; dividing that by the divisor's
    /// significand and rounding once gives the quotient's significand.
    ///
    /// Fails with [`Error::DivisionByZero`] exactly when the divisor's
    /// significand is zero; otherwise with [`Error::Overflow`] exactly when
    /// the scaled dividend or the rounded quotient is out of range.
    pub fn div(&self, other: &Decimal) -> (r: Result<Decimal, Error>)
        ensures
            match r {
                Ok(d) => {
                    &&& other@.significand != 0
                    &&& fits(self@.dividend(other@))
                    &&& d@ == self@.quotient(other@)
                },
                Err(e) => if other@.significand == 0 {
                    e == Error::DivisionByZero
                } else {
                    e == Error::Overflow && !(fits(self@.dividend(other@)) && self@.quotient(
                        other@,
                    ).representable())
                },
            },
    {
        proof {
            lemma_pow10_unfold(0);
            self.lemma_representable();
            other.lemma_representable();
        }
        if other.significand() == 0 {
            return Err(Error::DivisionByZero);
        }
        let sa: u32 = self.scale();
        let sb: u32 = other.scale();
        let lift: u32 = if sa >= sb {
            0
        } else {
            sb - sa
        };
        let aligned: i128 = match scale_up(self.significand(), lift) {
            Some(x) => x,
            None => {
                proof {
                    lemma_scaling_grows(
                        self@.aligned(self@.common_scale(other@)),
                        other@.scale,
                    );
                }
                return Err(Error::Overflow);
            },
        };
        let dividend: i128 = match scale_up(aligned, sb) {
            Some(n) => n,
            None => {
                return Err(Error::Overflow);
            },
        };
        match divide_rounded(dividend, other.significand()) {
            Some(q) => Ok(Decimal::new(q, if sa >= sb { sa } else { sb })),
            None => Err(Error::Overflow),
        }
    }
}

} // verus!
