//! The unsigned magnitude type `UBig`: a tagged sum of an inline single word
//! and a heap buffer of at least two words whose top word is nonzero.  Every
//! operation restores this canonical form, so each value has exactly one
//! representation.

use vstd::prelude::*;
use vstd::arithmetic::power2::pow2;
use vstd::arithmetic::power2::lemma2_to64;
use crate::buffer::Buffer;
use crate::primitive::Word;
use crate::primitive::words_val;
use crate::primitive::word_base;
use crate::primitive::lemma_words_val_empty;
use crate::primitive::lemma_words_val_singleton;
use crate::primitive::lemma_words_val_top_nonzero;
use crate::primitive::lemma_words_val_zeros_above;
use crate::MAX_CAPACITY;

verus! {

/// Internal representation: inline small value, or heap magnitude.
/// The representation is canonical exactly when `UBig::wf` holds; the field
/// is exposed for the arithmetic kernels, while `Buffer` has no public
/// constructor, so a well-formed value can only be made by this library.
#[derive(Debug)]
pub enum Repr {
    Small(Word),
    Large(Buffer),
}

/// An arbitrary-precision unsigned integer.
#[derive(Debug)]
pub struct UBig {
    pub repr: Repr,
}

impl UBig {
    /// The canonical-form invariant: a heap magnitude has at least two words,
    /// a nonzero top word, and respects the capacity cap.
    pub open spec fn wf(&self) -> bool {
        match self.repr {
            Repr::Small(_) => true,
            Repr::Large(ref b) => b@.len() >= 2 && b@.last() != 0 && b@.len() <= MAX_CAPACITY,
        }
    }

    /// The number the representation stands for.
    pub open spec fn value(&self) -> nat {
        match self.repr {
            Repr::Small(w) => w as nat,
            Repr::Large(ref b) => words_val(b@),
        }
    }

    /// The number of words the representation occupies.
    pub open spec fn spec_num_words(&self) -> nat {
        match self.repr {
            Repr::Small(_) => 1,
            Repr::Large(ref b) => b@.len(),
        }
    }

    /// Representations agree: same shape, same words.
    pub open spec fn same_repr(&self, other: &UBig) -> bool {
        match (&self.repr, &other.repr) {
            (Repr::Small(a), Repr::Small(b)) => a == b,
            (Repr::Large(ref a), Repr::Large(ref b)) => a@ == b@,
            _ => false,
        }
    }

    /// A magnitude from a single word; always canonical.
    pub fn from_word(w: Word) -> (r: UBig)
        ensures
            r.wf(),
            r@ == w as nat,
            r.spec_num_words() == 1,
    {
        UBig { repr: Repr::Small(w) }
    }

    /// The number of words occupied, as an executable query.
    pub fn num_words(&self) -> (n: usize)
        requires
            self.wf(),
        ensures
            n == self.spec_num_words(),
            1 <= n <= MAX_CAPACITY,
    {
        match &self.repr {
            Repr::Small(_) => 1,
            Repr::Large(b) => b.len(),
        }
    }

    pub fn is_zero(&self) -> (r: bool)
        requires
            self.wf(),
        ensures
            r == (self@ == 0),
    {
        proof {
            self.lemma_large_is_big();
        }
        match &self.repr {
            Repr::Small(w) => *w == 0,
            Repr::Large(_) => false,
        }
    }

    /// Canonicalize a buffer into a magnitude: strip top zeros, collapse to
    /// the inline form below two words.
    pub fn from_buffer(buf: Buffer) -> (r: UBig)
        requires
            buf@.len() <= MAX_CAPACITY,
        ensures
            r.wf(),
            r@ == words_val(buf@),
            r.spec_num_words() <= buf@.len() || r.spec_num_words() == 1,
    {
        let mut buf = buf;
        let ghost orig = buf@;
        buf.pop_leading_zeros();
        proof {
            lemma_words_val_zeros_above(orig, buf@.len() as int);
        }
        let n = buf.len();
        if n == 0 {
            proof {
                lemma_words_val_empty();
                assert(buf@ =~= Seq::<Word>::empty());
            }
            UBig { repr: Repr::Small(0) }
        } else if n == 1 {
            proof {
                lemma_words_val_singleton(buf@[0]);
                assert(buf@ =~= seq![buf@[0]]);
            }
            let w = buf.get(0);
            UBig { repr: Repr::Small(w) }
        } else {
            UBig { repr: Repr::Large(buf) }
        }
    }

    /// The words of the magnitude, least significant first: one zero word for
    /// zero, otherwise the canonical buffer contents.
    pub fn to_word_vec(&self) -> (r: Vec<Word>)
        requires
            self.wf(),
        ensures
            words_val(r@) == self@,
            r@.len() == self.spec_num_words(),
            r@.len() >= 2 ==> r@.last() != 0,
    {
        match &self.repr {
            Repr::Small(w) => {
                let mut v: Vec<Word> = Vec::new();
                v.push(*w);
                proof {
                    lemma_words_val_singleton(*w);
                    assert(v@ =~= seq![*w]);
                }
                v
            }
            Repr::Large(b) => {
                b.clone().into_words()
            }
        }
    }

    /// A heap magnitude holds at least `2^64`, so it never collides with an
    /// inline word.
    pub proof fn lemma_large_is_big(&self)
        requires
            self.wf(),
        ensures
            self.repr is Large ==> self@ >= word_base() && self@ > 0,
    {
        if self.repr is Large {
            let b = self.repr->Large_0;
            lemma_words_val_top_nonzero(b@);
            crate::math::lemma_pow_le(2, 64, (64 * (b@.len() - 1)) as nat);
            vstd::arithmetic::power2::lemma_pow2_pos(64);
            lemma2_to64();
            crate::primitive::lemma_pow2_le_connect(64, (64 * (b@.len() - 1)) as nat);
        }
    }


    /// A canonical representation of a value below `2^(64 k)` takes at most
    /// `k` words.
    pub proof fn lemma_num_words_le(&self, k: nat)
        requires
            self.wf(),
            k >= 1,
            self@ < pow2(64 * k),
        ensures
            self.spec_num_words() <= k,
    {
        if self.repr is Large {
            let b = self.repr->Large_0;
            if b@.len() > k {
                lemma_words_val_top_nonzero(b@);
                crate::primitive::lemma_pow2_le_connect(64 * k, (64 * (b@.len() - 1)) as nat);
                assert(false);
            }
        }
    }


    /// A well-formed magnitude is below `2^(64 w)` for its word count `w`.
    pub proof fn lemma_value_bound(&self)
        requires
            self.wf(),
        ensures
            self@ < pow2(64 * self.spec_num_words()),
    {
        match self.repr {
            Repr::Small(w) => {
                lemma2_to64();
            }
            Repr::Large(ref b) => {
                crate::primitive::lemma_words_val_bound(b@);
            }
        }
    }

    /// Canonicalization: a well-formed representation is determined by its
    /// value.  Together with the executable equality this says each number is
    /// reachable in exactly one form, and zero has exactly one form.
    pub proof fn lemma_canonical_unique(a: &UBig, b: &UBig)
        requires
            a.wf(),
            b.wf(),
        ensures
            a.same_repr(b) == (a@ == b@),
    {
        a.lemma_large_is_big();
        b.lemma_large_is_big();
        lemma2_to64();
        match (&a.repr, &b.repr) {
            (Repr::Small(x), Repr::Small(y)) => {}
            (Repr::Large(ref x), Repr::Large(ref y)) => {
                if a@ == b@ {
                    crate::primitive::lemma_words_val_canonical_unique(x@, y@);
                }
            }
            _ => {}
        }
    }
}

impl View for UBig {
    type V = nat;

    open spec fn view(&self) -> nat {
        self.value()
    }
}

impl Clone for UBig {
    /// Cloning preserves the exact representation.
    fn clone(&self) -> (r: Self)
        ensures
            r@ == self@,
            r.wf() == self.wf(),
            r.same_repr(self),
    {
        match &self.repr {
            Repr::Small(w) => UBig { repr: Repr::Small(*w) },
            Repr::Large(b) => UBig { repr: Repr::Large(b.clone()) },
        }
    }
}

impl PartialEq for UBig {
    /// Equality of representations; for well-formed values this coincides
    /// with equality of the numbers they stand for.
    fn eq(&self, other: &UBig) -> (r: bool)
    {
        match (&self.repr, &other.repr) {
            (Repr::Small(a), Repr::Small(b)) => *a == *b,
            (Repr::Large(a), Repr::Large(b)) => {
                let n = a.len();
                if n != b.len() {
                    proof {
                        assert(a@ != b@);
                    }
                    false
                } else {
                    let mut i: usize = 0;
                    let mut eq = true;
                    while i < n
                        invariant
                            i <= n,
                            n == a@.len() == b@.len(),
                            eq == (forall|j: int| 0 <= j < i ==> a@[j] == b@[j]),
                        decreases n - i,
                    {
                        if a.get(i) != b.get(i) {
                            eq = false;
                        }
                        i = i + 1;
                    }
                    proof {
                        if eq {
                            assert(a@ =~= b@);
                        }
                    }
                    eq
                }
            }
            _ => false,
        }
    }
}

impl Eq for UBig {}

impl vstd::std_specs::cmp::PartialEqSpecImpl for UBig {
    open spec fn obeys_eq_spec() -> bool {
        true
    }

    open spec fn eq_spec(&self, other: &UBig) -> bool {
        self.same_repr(other)
    }
}

} // verus!
