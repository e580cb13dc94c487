//! The decimal value type and its constructors.

use crate::model::Fixed;
use vstd::prelude::*;

verus! {

/// A fixed-point decimal number: `significand / 10^scale`.
///
/// The fields are kept as given. `12.00` and `12` are the same number in two
/// representations; comparison treats them as equal, while the accessors and
/// the binary form tell them apart.
#[derive(Clone, Copy, Debug)]
pub struct Decimal {
    significand: i128,
    scale: u32,
}

impl View for Decimal {
    type V = Fixed;

    closed spec fn view(&self) -> Fixed {
        Fixed { significand: self.significand as int, scale: self.scale as nat }
    }
}

impl Decimal {
    /// The decimal `significand / 10^scale`, stored as given.
    pub fn new(significand: i128, scale: u32) -> (r: Decimal)
        ensures
            r@ == (Fixed { significand: significand as int, scale: scale as nat }),
    {
        Decimal { significand, scale }
    }

    /// The stored significand.
    pub fn significand(&self) -> (r: i128)
        ensures
            r == self@.significand,
    {
        self.significand
    }

    /// The stored scale: the number of digits after the decimal point.
    pub fn scale(&self) -> (r: u32)
        ensures
            r == self@.scale,
    {
        self.scale
    }

    /// The integer `value`, at scale zero. Every `i64` has a decimal.
    pub fn from_i64(value: i64) -> (r: Option<Decimal>)
        ensures
            r matches Some(d) && d@ == (Fixed { significand: value as int, scale: 0 }),
    {
        Some(Decimal { significand: value as i128, scale: 0 })
    }

    /// The integer `value`, at scale zero. Every `u64` has a decimal.
    pub fn from_u64(value: u64) -> (r: Option<Decimal>)
        ensures
            r matches Some(d) && d@ == (Fixed { significand: value as int, scale: 0 }),
    {
        Some(Decimal { significand: value as i128, scale: 0 })
    }

    /// The fields of a stored decimal are within the machine's range.
    pub proof fn lemma_representable(self)
        ensures
            self@.representable(),
    {
    }

    /// Decimals with the same model are the same decimal.
    pub proof fn lemma_view_injective(self, other: Decimal)
        requires
            self@ == other@,
        ensures
            self == other,
    {
    }
}

} // verus!
