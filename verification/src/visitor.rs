//! Turning the literals of a data format into decimals.
//!
//! A data format hands over a decimal as text or as a number. The visitor
//! takes whichever comes and builds the decimal from it: text is read as a
//! decimal literal, an integer becomes a decimal of scale zero, and a float
//! comes as the shortest text that reads back as the same float.

use crate::decimal::Decimal;
use crate::error::Error;
use crate::model::Fixed;
use crate::text::{parsed, well_formed};
use vstd::prelude::*;

verus! {

/// Builds decimals from the literals of a data format.
#[derive(Clone, Copy, Debug)]
pub struct DecimalVisitor;

impl DecimalVisitor {
    /// What the visitor takes, in words, for the message of a format that
    /// handed over something else.
    pub fn expecting(&self) -> (r: &'static str)
        ensures
            r@ == "a Decimal type representing a fixed-point number"@,
    {
        "a Decimal type representing a fixed-point number"
    }

    /// The decimal of a signed integer literal: `value` at scale zero.
    pub fn visit_i64(&self, value: i64) -> (r: Result<Decimal, Error>)
        ensures
            r matches Ok(d) && d@ == (Fixed { significand: value as int, scale: 0 }),
    {
        match Decimal::from_i64(value) {
            Some(d) => Ok(d),
            None => Err(Error::Conversion),
        }
    }

    /// The decimal of an unsigned integer literal: `value` at scale zero.
    pub fn visit_u64(&self, value: u64) -> (r: Result<Decimal, Error>)
        ensures
            r matches Ok(d) && d@ == (Fixed { significand: value as int, scale: 0 }),
    {
        match Decimal::from_u64(value) {
            Some(d) => Ok(d),
            None => Err(Error::Conversion),
        }
    }

    /// The decimal of a text literal, read as [`Decimal::from_str`] reads it.
    pub fn visit_str(&self, value: &str) -> (r: Result<Decimal, Error>)
        ensures
            match r {
                Ok(d) => well_formed(value@) && d@ == parsed(value@),
                Err(e) => if well_formed(value@) {
                    e == Error::Overflow && !parsed(value@).representable()
                } else {
                    e == Error::Parse
                },
            },
    {
        Decimal::from_str(value)
    }

    /// The decimal of a float literal, given as the text that the float is
    /// written as.
    ///
    /// Fails with [`Error::Conversion`] exactly when the text is no decimal
    /// literal, as the text of a float that is no number or is infinite is
    /// not, or when what it denotes is out of a decimal's range.
    pub fn visit_f64_text(&self, text: &str) -> (r: Result<Decimal, Error>)
        ensures
            match r {
                Ok(d) => well_formed(text@) && d@ == parsed(text@),
                Err(e) => e == Error::Conversion && !(well_formed(text@) && parsed(
                    text@,
                ).representable()),
            },
    {
        match Decimal::from_str(text) {
            Ok(d) => Ok(d),
            Err(_) => Err(Error::Conversion),
        }
    }
}

} // verus!
