//! The ways in which an operation on a decimal can fail.

use vstd::prelude::*;

verus! {

/// Why an operation produced no value.
///
/// Every failure is a function of the operation's input alone, so the same
/// call fails in the same way when it is repeated.
#[derive(Clone, Copy, Debug, PartialEq, Eq, Structural)]
pub enum Error {
    /// The text is not a decimal literal.
    Parse,
    /// A value of another numeric type has no decimal counterpart.
    Conversion,
    /// A significand or a scale left the range that a decimal can hold.
    Overflow,
    /// The divisor was zero.
    DivisionByZero,
}

} // verus!
