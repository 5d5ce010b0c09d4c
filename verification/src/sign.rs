//! The sign of a signed big integer.

use vstd::prelude::*;

verus! {

/// Sign of an `IBig`.  Zero always carries `Positive`: there is no negative
/// zero.
#[derive(Clone, Copy, Debug, PartialEq, Eq, Structural)]
pub enum Sign {
    Positive,
    Negative,
}

impl Sign {
    /// The opposite sign.
    pub fn opposite(self) -> (r: Sign)
        ensures
            r == (if self is Positive {
                Sign::Negative
            } else {
                Sign::Positive
            }),
    {
        match self {
            Sign::Positive => Sign::Negative,
            Sign::Negative => Sign::Positive,
        }
    }

    /// Signs multiply like `{+1, -1}`.
    pub fn product(self, other: Sign) -> (r: Sign)
        ensures
            r == (if self == other {
                Sign::Positive
            } else {
                Sign::Negative
            }),
    {
        match (self, other) {
            (Sign::Positive, Sign::Positive) => Sign::Positive,
            (Sign::Negative, Sign::Negative) => Sign::Positive,
            _ => Sign::Negative,
        }
    }
}

} // verus!
