//! Error values surfaced at the library boundary.

use vstd::prelude::*;

verus! {

/// Failure to parse a digit string.
#[derive(Clone, Copy, Debug, PartialEq, Eq, Structural)]
pub enum ParseError {
    /// There were no digits in the magnitude.
    NoDigits,
    /// A character was not a digit of the declared radix.
    InvalidDigit,
}

/// A conversion into a machine integer did not fit the target type.
#[derive(Clone, Copy, Debug, PartialEq, Eq, Structural)]
pub struct OutOfRangeError;

} // verus!
