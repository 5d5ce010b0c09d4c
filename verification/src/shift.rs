//! Bit shifts of magnitudes.  A shift amount decomposes into whole words and
//! a bit count below the word size: left shifts prepend zero words and scale
//! by a power of two, right shifts drop low words and divide by a power of
//! two.  Shifting a signed value moves its magnitude and keeps its sign, so
//! a right shift truncates toward zero only in magnitude.

use vstd::prelude::*;
use vstd::arithmetic::power2::pow2;
use vstd::arithmetic::power2::lemma_pow2_adds;
use vstd::arithmetic::power2::lemma_pow2_pos;
use vstd::arithmetic::div_mod::lemma_fundamental_div_mod;
use vstd::arithmetic::div_mod::lemma_fundamental_div_mod_converse;
use vstd::arithmetic::div_mod::lemma_div_denominator;
use vstd::arithmetic::div_mod::lemma_div_multiples_vanish_fancy;
use crate::buffer::Buffer;
use crate::primitive::Word;
use crate::primitive::words_val;
use crate::primitive::word_base;
use crate::primitive::pow2_word;
use crate::primitive::lemma_words_val_split;
use crate::primitive::lemma_words_val_bound;
use crate::primitive::lemma_pow2_le_connect;
use crate::mul::mul_word_add;
use crate::div::div_rem_words_by_word;
use crate::ubig::UBig;
use crate::ibig::IBig;
use crate::MAX_CAPACITY;

verus! {

impl UBig {
    /// Left shift: `self * 2^rhs`.  The capacity bound is the one machine
    /// limit: the result must stay within the word cap.
    pub fn shl(&self, rhs: usize) -> (r: UBig)
        requires
            self.wf(),
            self@ == 0 || self.spec_num_words() + rhs as nat / 64 + 3 <= MAX_CAPACITY,
        ensures
            r.wf(),
            r@ == self@ * pow2(rhs as nat),
    {
        if self.is_zero() {
            proof {
                lemma_pow2_pos(rhs as nat);
                assert(0nat * pow2(rhs as nat) == 0) by (nonlinear_arith);
            }
            return UBig::from_word(0);
        }
        let shift_words: usize = rhs / 64;
        let shift_bits: u64 = (rhs % 64) as u64;
        let mut buf = Buffer::allocate(self.num_words() + shift_words + 2);
        buf.push_zeros(shift_words);
        let aw = self.to_word_vec();
        buf.extend(aw.as_slice());
        let ghost mid = buf@;
        proof {
            // the zero prefix scales the value by 2^(64*shift_words)
            assert(mid.take(shift_words as int) =~= Seq::new(
                shift_words as nat,
                |j: int| 0u64,
            ));
            assert(mid.skip(shift_words as int) =~= aw@);
            lemma_words_val_split(mid, shift_words as int);
            crate::math::lemma_le_val_zeros(
                crate::primitive::nat_seq_u64(mid.take(shift_words as int)),
                word_base(),
            );
            lemma_words_val_zeros_left(mid, shift_words as int);
        }
        // multiply through by 2^shift_bits
        let pb = pow2_word(shift_bits);
        let shifted = mul_word_add(buf.as_slice(), pb, 0);
        let mut out = Buffer::allocate(shifted.len());
        out.extend(shifted.as_slice());
        proof {
            assert(out@ =~= shifted@);
            lemma_fundamental_div_mod(rhs as int, 64);
            lemma_pow2_adds((64 * (rhs as nat / 64)) as nat, rhs as nat % 64);
            assert(64 * (rhs as nat / 64) + rhs as nat % 64 == rhs as nat);
            // (v * 2^(64 sw)) * 2^b == v * 2^(64 sw + b)
            assert(words_val(mid) * pow2(shift_bits as nat) == self@ * pow2(rhs as nat))
                by (nonlinear_arith)
                requires
                    words_val(mid) == pow2((64 * (rhs as nat / 64)) as nat) * self@,
                    pow2((64 * (rhs as nat / 64)) as nat) * pow2(rhs as nat % 64) == pow2(
                        rhs as nat,
                    ),
                    pow2(shift_bits as nat) == pow2(rhs as nat % 64),
            ;
        }
        UBig::from_buffer(out)
    }

    /// Right shift: `self / 2^rhs`, truncating.  A shift beyond the bit
    /// length gives zero.
    pub fn shr(&self, rhs: usize) -> (r: UBig)
        requires
            self.wf(),
        ensures
            r.wf(),
            r@ == self@ / pow2(rhs as nat),
            r.spec_num_words() <= self.spec_num_words(),
    {
        let shift_words: usize = rhs / 64;
        let shift_bits: u64 = (rhs % 64) as u64;
        let aw = self.to_word_vec();
        let n = aw.len();
        proof {
            lemma_pow2_pos(rhs as nat);
            lemma_pow2_pos((64 * (rhs as nat / 64)) as nat);
            lemma_pow2_pos(rhs as nat % 64);
        }
        if shift_words >= n {
            // every word is dropped: the value divides to zero
            proof {
                lemma_words_val_bound(aw@);
                lemma_pow2_le_connect((64 * n) as nat, (64 * (rhs as nat / 64)) as nat);
                lemma_pow2_le_connect((64 * (rhs as nat / 64)) as nat, rhs as nat);
                assert(64 * (rhs as nat / 64) <= rhs as nat) by (nonlinear_arith)
                    requires rhs as nat == 64 * (rhs as nat / 64) + rhs as nat % 64;
                lemma_fundamental_div_mod(rhs as int, 64);
                vstd::arithmetic::div_mod::lemma_basic_div(self@ as int, pow2(rhs as nat) as int);
            }
            return UBig::from_word(0);
        }
        // drop the low words: value / 2^(64 sw)
        let mut kept: Vec<Word> = Vec::new();
        let mut i: usize = shift_words;
        while i < n
            invariant
                shift_words <= i <= n,
                n == aw@.len(),
                kept@ == aw@.subrange(shift_words as int, i as int),
            decreases n - i,
        {
            kept.push(aw[i]);
            proof {
                assert(aw@.subrange(shift_words as int, i + 1) =~= aw@.subrange(
                    shift_words as int,
                    i as int,
                ).push(aw@[i as int]));
            }
            i = i + 1;
        }
        proof {
            assert(kept@ =~= aw@.skip(shift_words as int));
            lemma_words_val_split(aw@, shift_words as int);
            lemma_words_val_bound(aw@.take(shift_words as int));
            let p = pow2((64 * shift_words) as nat) as int;
            let lo = words_val(aw@.take(shift_words as int)) as int;
            let hi = words_val(aw@.skip(shift_words as int)) as int;
            assert(self@ as int == p * hi + lo) by (nonlinear_arith)
                requires self@ as int == lo + p * hi;
            lemma_div_multiples_vanish_fancy(hi, lo, p);
            assert(self@ as int / p == hi);
        }
        // divide the rest by 2^shift_bits
        let pb = pow2_word(shift_bits);
        let (qw, _rem) = div_rem_words_by_word(kept.as_slice(), pb);
        let mut out = Buffer::allocate(qw.len());
        out.extend(qw.as_slice());
        proof {
            assert(out@ =~= qw@);
            let hi = words_val(kept@);
            lemma_fundamental_div_mod(hi as int, pb as int);
            lemma_fundamental_div_mod_converse(
                hi as int,
                pb as int,
                words_val(qw@) as int,
                _rem as int,
            );
            // self / 2^rhs == (self / 2^(64 sw)) / 2^b
            lemma_fundamental_div_mod(rhs as int, 64);
            lemma_pow2_adds((64 * (rhs as nat / 64)) as nat, rhs as nat % 64);
            lemma_div_denominator(
                self@ as int,
                pow2((64 * (rhs as nat / 64)) as nat) as int,
                pow2(rhs as nat % 64) as int,
            );
        }
        let r = UBig::from_buffer(out);
        proof {
            self.lemma_value_bound();
            vstd::arithmetic::div_mod::lemma_div_nonincreasing(
                self@ as int,
                pow2(rhs as nat) as int,
            );
            r.lemma_num_words_le(self.spec_num_words());
        }
        r
    }
}

/// A zero prefix under a buffer scales the upper part by the base power.
proof fn lemma_words_val_zeros_left(s: Seq<Word>, i: int)
    requires
        0 <= i <= s.len(),
        forall|j: int| 0 <= j < i ==> s[j] == 0,
        words_val(s.take(i)) == 0,
    ensures
        words_val(s) == pow2((64 * i) as nat) * words_val(s.skip(i)),
{
    lemma_words_val_split(s, i);
}

impl IBig {
    /// Left shift of a signed value: the magnitude shifts, the sign stays.
    pub fn shl(&self, rhs: usize) -> (r: IBig)
        requires
            self.wf(),
            self@ == 0 || self.spec_num_words() + rhs as nat / 64 + 3 <= MAX_CAPACITY,
        ensures
            r.wf(),
            r@ == self@ * pow2(rhs as nat) as int,
    {
        let mag = self.magnitude().shl(rhs);
        let r = IBig::from_sign_magnitude(self.sign(), mag);
        proof {
            let m = self.magnitude@ as int;
            let p = pow2(rhs as nat) as int;
            vstd::arithmetic::mul::lemma_mul_unary_negation(m, p);
            vstd::arithmetic::mul::lemma_mul_is_commutative(m, p);
        }
        r
    }

    /// Right shift of a signed value: the magnitude shifts, the sign stays.
    /// This is a magnitude shift, not an arithmetic shift: for a negative
    /// value it truncates toward zero, not toward minus infinity.
    pub fn shr(&self, rhs: usize) -> (r: IBig)
        requires
            self.wf(),
        ensures
            r.wf(),
            r@ == (if self@ >= 0 {
                (self.magnitude@ / pow2(rhs as nat)) as int
            } else {
                -((self.magnitude@ / pow2(rhs as nat)) as int)
            }),
    {
        let mag = self.magnitude().shr(rhs);
        IBig::from_sign_magnitude(self.sign(), mag)
    }
}

} // verus!
