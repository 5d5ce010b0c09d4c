//! The signed big integer `IBig`: a sign and an unsigned magnitude.  The
//! invariant rules out a negative zero, so here too every number has exactly
//! one representation.

use vstd::prelude::*;
use crate::sign::Sign;
use crate::ubig::UBig;
use crate::MAX_CAPACITY;

verus! {

/// An arbitrary-precision signed integer in sign-magnitude form.
#[derive(Debug)]
pub struct IBig {
    pub sign: Sign,
    pub magnitude: UBig,
}

impl IBig {
    /// Canonical form: the magnitude is canonical, and zero is positive.
    pub open spec fn wf(&self) -> bool {
        &&& self.magnitude.wf()
        &&& (self.magnitude@ == 0 ==> self.sign is Positive)
    }

    /// The integer represented.
    pub open spec fn value(&self) -> int {
        match self.sign {
            Sign::Positive => self.magnitude@ as int,
            Sign::Negative => -(self.magnitude@ as int),
        }
    }

    pub open spec fn spec_num_words(&self) -> nat {
        self.magnitude.spec_num_words()
    }

    /// Representations agree: same sign and same magnitude words.
    pub open spec fn same_repr(&self, other: &IBig) -> bool {
        self.sign == other.sign && self.magnitude.same_repr(&other.magnitude)
    }

    /// Compose from a sign and a magnitude, normalizing the sign of zero.
    pub fn from_sign_magnitude(sign: Sign, magnitude: UBig) -> (r: IBig)
        requires
            magnitude.wf(),
        ensures
            r.wf(),
            r@ == (if sign is Positive {
                magnitude@ as int
            } else {
                -(magnitude@ as int)
            }),
            r.magnitude == magnitude,
    {
        let sign = if magnitude.is_zero() {
            Sign::Positive
        } else {
            sign
        };
        IBig { sign, magnitude }
    }

    /// A nonnegative integer from a magnitude.
    pub fn from_ubig(magnitude: UBig) -> (r: IBig)
        requires
            magnitude.wf(),
        ensures
            r.wf(),
            r@ == magnitude@ as int,
    {
        IBig { sign: Sign::Positive, magnitude }
    }

    pub fn sign(&self) -> (s: Sign)
        requires
            self.wf(),
        ensures
            s == self.sign,
            (s is Negative) == (self@ < 0),
    {
        proof {
            if self.magnitude@ != 0 {
            }
        }
        self.sign
    }

    /// A borrow of the magnitude, `|self|`.
    pub fn magnitude(&self) -> (m: &UBig)
        requires
            self.wf(),
        ensures
            m.wf(),
            m@ as int == (if self@ >= 0 {
                self@
            } else {
                -self@
            }),
            *m == self.magnitude,
    {
        &self.magnitude
    }

    /// Decompose into sign and magnitude.
    pub fn into_sign_magnitude(self) -> (r: (Sign, UBig))
        requires
            self.wf(),
        ensures
            r.1.wf(),
            r.0 == self.sign,
            r.1 == self.magnitude,
    {
        (self.sign, self.magnitude)
    }

    pub fn is_zero(&self) -> (r: bool)
        requires
            self.wf(),
        ensures
            r == (self@ == 0),
    {
        self.magnitude.is_zero()
    }

    /// Negation: `-self`.  Zero stays positive zero.
    pub fn neg(&self) -> (r: IBig)
        requires
            self.wf(),
        ensures
            r.wf(),
            r@ == -self@,
            r.spec_num_words() == self.spec_num_words(),
    {
        IBig::from_sign_magnitude(self.sign.opposite(), self.magnitude.clone())
    }

    /// Signed addition: magnitudes add when the signs agree; otherwise the
    /// smaller magnitude is subtracted from the larger, which gives its sign.
    pub fn add_ibig(&self, other: &IBig) -> (r: IBig)
        requires
            self.wf(),
            other.wf(),
            self.spec_num_words() < MAX_CAPACITY,
            other.spec_num_words() < MAX_CAPACITY,
        ensures
            r.wf(),
            r@ == self@ + other@,
    {
        let (sa, ma) = (&self.sign, &self.magnitude);
        let (sb, mb) = (&other.sign, &other.magnitude);
        if *sa == *sb {
            IBig::from_sign_magnitude(*sa, ma.add_ubig(mb))
        } else {
            let c = ma.cmp_with(mb);
            if c == 1 {
                IBig::from_sign_magnitude(*sa, ma.sub_ubig(mb))
            } else if c == -1 {
                IBig::from_sign_magnitude(*sb, mb.sub_ubig(ma))
            } else {
                IBig::from_sign_magnitude(Sign::Positive, ma.sub_ubig(mb))
            }
        }
    }

    /// Signed subtraction: negate the second argument, then add.
    pub fn sub_ibig(&self, other: &IBig) -> (r: IBig)
        requires
            self.wf(),
            other.wf(),
            self.spec_num_words() < MAX_CAPACITY,
            other.spec_num_words() < MAX_CAPACITY,
        ensures
            r.wf(),
            r@ == self@ - other@,
    {
        self.add_ibig(&other.neg())
    }

    /// Canonicalization for signed values: a well-formed representation is
    /// determined by the integer it stands for.
    pub proof fn lemma_canonical_unique(a: &IBig, b: &IBig)
        requires
            a.wf(),
            b.wf(),
        ensures
            a.same_repr(b) == (a@ == b@),
    {
        UBig::lemma_canonical_unique(&a.magnitude, &b.magnitude);
    }
}

impl View for IBig {
    type V = int;

    open spec fn view(&self) -> int {
        self.value()
    }
}

impl Clone for IBig {
    /// Cloning preserves the exact representation.
    fn clone(&self) -> (r: Self)
        ensures
            r@ == self@,
            r.wf() == self.wf(),
            r.same_repr(self),
    {
        IBig { sign: self.sign, magnitude: self.magnitude.clone() }
    }
}

impl PartialEq for IBig {
    /// Equality of representations; for well-formed values this coincides
    /// with equality of the integers they stand for.
    fn eq(&self, other: &IBig) -> (r: bool)
    {
        self.sign == other.sign && self.magnitude == other.magnitude
    }
}

impl Eq for IBig {}

impl vstd::std_specs::cmp::PartialEqSpecImpl for IBig {
    open spec fn obeys_eq_spec() -> bool {
        true
    }

    open spec fn eq_spec(&self, other: &IBig) -> bool {
        self.same_repr(other)
    }
}

} // verus!
