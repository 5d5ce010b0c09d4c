//! Comparison of magnitudes: shorter canonical buffers hold smaller numbers,
//! equal-length buffers compare word by word from the top.

use vstd::prelude::*;
use crate::primitive::words_val;
use crate::primitive::lemma_words_val_bound;
use crate::primitive::lemma_words_val_top_nonzero;
use crate::primitive::lemma_words_val_cmp;
use crate::primitive::lemma_pow2_le_connect;
use crate::ubig::Repr;
use crate::ubig::UBig;

verus! {

impl UBig {
    /// Three-way magnitude comparison: `-1`, `0` or `1` as `self` is below,
    /// equal to, or above `other`.
    pub fn cmp_with(&self, other: &UBig) -> (r: i8)
        requires
            self.wf(),
            other.wf(),
        ensures
            (r == -1) == (self@ < other@),
            (r == 0) == (self@ == other@),
            (r == 1) == (self@ > other@),
    {
        proof {
            self.lemma_large_is_big();
            other.lemma_large_is_big();
            crate::primitive::lemma_word_base_value();
        }
        match (&self.repr, &other.repr) {
            (Repr::Small(a), Repr::Small(b)) => {
                if *a < *b {
                    -1
                } else if *a == *b {
                    0
                } else {
                    1
                }
            }
            (Repr::Small(_), Repr::Large(_)) => -1,
            (Repr::Large(_), Repr::Small(_)) => 1,
            (Repr::Large(a), Repr::Large(b)) => {
                let na = a.len();
                let nb = b.len();
                if na < nb {
                    proof {
                        lemma_words_val_bound(a@);
                        lemma_words_val_top_nonzero(b@);
                        lemma_pow2_le_connect((64 * na) as nat, (64 * (nb - 1)) as nat);
                    }
                    -1
                } else if na > nb {
                    proof {
                        lemma_words_val_bound(b@);
                        lemma_words_val_top_nonzero(a@);
                        lemma_pow2_le_connect((64 * nb) as nat, (64 * (na - 1)) as nat);
                    }
                    1
                } else {
                    let mut i: usize = na;
                    let mut r: i8 = 0;
                    let mut done = false;
                    while i > 0 && !done
                        invariant
                            i <= na,
                            na == a@.len() == b@.len(),
                            !done ==> r == 0 && (forall|j: int|
                                i <= j < na ==> a@[j] == b@[j]),
                            done ==> ((r == -1 || r == 1) && (r == -1) == (words_val(a@)
                                < words_val(b@)) && (r == 1) == (words_val(a@) > words_val(
                                b@,
                            ))),
                        decreases i,
                    {
                        i = i - 1;
                        let x = a.get(i);
                        let y = b.get(i);
                        if x < y {
                            proof {
                                lemma_words_val_cmp(a@, b@, i as int);
                            }
                            r = -1;
                            done = true;
                        } else if x > y {
                            proof {
                                lemma_words_val_cmp(b@, a@, i as int);
                            }
                            r = 1;
                            done = true;
                        }
                    }
                    proof {
                        if !done {
                            assert(a@ =~= b@);
                        }
                    }
                    r
                }
            }
        }
    }

    /// `self < other` on the numbers represented.
    pub fn lt(&self, other: &UBig) -> (r: bool)
        requires
            self.wf(),
            other.wf(),
        ensures
            r == (self@ < other@),
    {
        self.cmp_with(other) == -1
    }

    /// `self <= other` on the numbers represented.
    pub fn le(&self, other: &UBig) -> (r: bool)
        requires
            self.wf(),
            other.wf(),
        ensures
            r == (self@ <= other@),
    {
        self.cmp_with(other) != 1
    }
}

} // verus!
