//! A big integer library: arbitrary-precision unsigned and signed integers,
//! radix conversion, bit shifts, byte conversion, and modular arithmetic,
//! with machine-checked contracts for the arithmetic core.

use vstd::prelude::*;

pub use crate::ibig::IBig;
pub use crate::ubig::UBig;

pub mod add;
pub mod buffer;
pub mod cmp;
pub mod convert;
pub mod div;
pub mod error;
pub mod fmt;
pub mod ibig;
pub mod laws;
pub mod math;
pub mod modular;
pub mod mul;
pub mod parse;
pub mod primitive;
pub mod radix;
pub mod shift;
pub mod sign;
pub mod ubig;

verus! {

/// Hard cap on the number of words in a magnitude.  A magnitude at the cap
/// holds 2^28 words; the cap keeps every intermediate length computation
/// within address-sized arithmetic.  Exceeding it is a programmer error
/// (`CapacityExceeded` is fatal), so growing operations state it as a
/// precondition.
pub const MAX_CAPACITY: usize = 0x10000000;

} // verus!
