//! Unsigned multiplication: the word-by-buffer kernel with carry, the full
//! schoolbook product built from it, and powers by repeated multiplication.

use vstd::prelude::*;
use vstd::arithmetic::power::pow;
use vstd::arithmetic::power2::pow2;
use vstd::arithmetic::power2::lemma2_to64;
use crate::buffer::Buffer;
use crate::primitive::Word;
use crate::primitive::words_val;
use crate::primitive::word_base;
use crate::primitive::split_dword;
use crate::primitive::lemma_word_base_value;
use crate::primitive::lemma_words_val_empty;
use crate::primitive::lemma_words_val_push;
use crate::primitive::lemma_words_val_take_succ;
use crate::primitive::lemma_words_val_skip_step;
use crate::primitive::lemma_words_val_bound;
use crate::primitive::lemma_words_val_prepend_zero;
use crate::primitive::lemma_carry_step;
use crate::add::add_words;
use crate::sign::Sign;
use crate::ubig::UBig;
use crate::ibig::IBig;
use crate::MAX_CAPACITY;

verus! {

/// `a * m + a0` over a word buffer, with a word multiplier and a word addend.
pub(crate) fn mul_word_add(a: &[Word], m: Word, a0: Word) -> (r: Vec<Word>)
    requires
        a@.len() < usize::MAX,
    ensures
        words_val(r@) == words_val(a@) * m as nat + a0 as nat,
        r@.len() == a@.len() + 1,
{
    let n = a.len();
    let mut out: Vec<Word> = Vec::with_capacity(n + 1);
    let mut carry: u64 = a0;
    let mut i: usize = 0;
    proof {
        lemma_words_val_empty();
        assert(a@.take(0) =~= Seq::<Word>::empty());
        assert(out@ =~= Seq::<Word>::empty());
        lemma2_to64();
        assert(pow2(0) == 1);
        assert(words_val(Seq::<Word>::empty()) * m as nat == 0) by (nonlinear_arith);
        vstd::arithmetic::mul::lemma_mul_basics(a0 as int);
        assert(pow2(64 * 0nat) * a0 as nat == a0 as nat);
    }
    while i < n
        invariant
            i <= n,
            n == a@.len() < usize::MAX,
            out@.len() == i,
            words_val(out@) + pow2(64 * i as nat) * carry as nat == words_val(a@.take(i as int))
                * m as nat + a0 as nat,
        decreases n - i,
    {
        proof {
            lemma_word_base_value();
            assert(a@[i as int] as nat * m as nat <= 0xffffffffffffffff * 0xffffffffffffffff)
                by (nonlinear_arith)
                requires a@[i as int] as nat <= 0xffffffffffffffff && m as nat
                    <= 0xffffffffffffffff;
        }
        let t: u128 = a[i] as u128 * m as u128 + carry as u128;
        let (lo, hi) = split_dword(t);
        let ghost p = pow2(64 * i as nat);
        let ghost pn = pow2(64 * ((i + 1) as nat));
        proof {
            lemma_words_val_push(out@, lo);
            lemma_words_val_take_succ(a@, i as int);
            lemma_carry_step(i as nat, lo as nat, hi as nat);
            let bb = word_base() as nat;
            // ring identity of the carry step
            assert(words_val(out@) + p * lo as nat + pn * hi as nat == words_val(
                a@.take(i as int + 1),
            ) * m as nat + a0 as nat) by (nonlinear_arith)
                requires
                    words_val(out@) + p * carry as nat == words_val(a@.take(i as int)) * m as nat
                        + a0 as nat,
                    lo as nat + bb * hi as nat == a@[i as int] as nat * m as nat + carry as nat,
                    p * lo as nat + pn * hi as nat == p * (lo as nat + bb * hi as nat),
                    words_val(a@.take(i as int + 1)) == words_val(a@.take(i as int)) + p * a@[
                        i as int
                    ] as nat,
            ;
        }
        out.push(lo);
        carry = hi;
        i = i + 1;
    }
    proof {
        assert(a@.take(n as int) =~= a@);
        lemma_words_val_push(out@, carry);
    }
    out.push(carry);
    out
}

impl UBig {
    /// `self * m + a0` with a word multiplier and a word addend; the
    /// accumulator step of chunked parsing.
    pub fn mul_add_word(&self, m: Word, a0: Word) -> (r: UBig)
        requires
            self.wf(),
            self.spec_num_words() + 2 <= MAX_CAPACITY,
        ensures
            r.wf(),
            r@ == self@ * m as nat + a0 as nat,
    {
        let aw = self.to_word_vec();
        let prod = mul_word_add(aw.as_slice(), m, a0);
        let mut buf = Buffer::allocate(prod.len());
        buf.extend(prod.as_slice());
        proof {
            assert(buf@ =~= prod@);
        }
        UBig::from_buffer(buf)
    }

    /// Magnitude product `self * other`, by the schoolbook scheme: walk the
    /// words of `other` from the top, multiplying the accumulator by the word
    /// base and adding `self` times the next word.
    pub fn mul_ubig(&self, other: &UBig) -> (r: UBig)
        requires
            self.wf(),
            other.wf(),
            self.spec_num_words() + other.spec_num_words() + 2 <= MAX_CAPACITY,
        ensures
            r.wf(),
            r@ == self@ * other@,
    {
        let aw = self.to_word_vec();
        let bw = other.to_word_vec();
        let ghost anw = self.spec_num_words();
        let ghost bnw = other.spec_num_words();
        let mut acc = UBig::from_word(0);
        let mut i: usize = bw.len();
        proof {
            assert(bw@.skip(i as int) =~= Seq::<Word>::empty());
            lemma_words_val_empty();
            assert(words_val(Seq::<Word>::empty()) * self@ == 0) by (nonlinear_arith);
        }
        while i > 0
            invariant
                i <= bw@.len(),
                bw@.len() == bnw,
                aw@.len() == anw,
                1 <= anw,
                1 <= bnw,
                words_val(aw@) == self@,
                words_val(bw@) == other@,
                anw + bnw + 2 <= MAX_CAPACITY,
                acc.wf(),
                acc@ == words_val(bw@.skip(i as int)) * self@,
            decreases i,
        {
            i = i - 1;
            // the accumulator value is bounded by the words consumed so far
            proof {
                lemma_words_val_bound(bw@.skip(i as int + 1));
                lemma_words_val_bound(aw@);
                assert(bw@.skip(i as int + 1).len() == bnw - i - 1);
                crate::primitive::lemma_prod_fits(
                    words_val(bw@.skip(i as int + 1)),
                    self@,
                    (bnw - i - 1) as nat,
                    anw,
                );
                acc.lemma_num_words_le((bnw - i - 1 + anw) as nat);
            }
            // acc <- acc * base + self * bw[i]
            let mut av = acc.to_word_vec();
            let ghost av0 = av@;
            av.insert(0, 0);
            proof {
                assert(av@ =~= av0.insert(0, 0u64));
                lemma_words_val_prepend_zero(av0);
            }
            let prod = mul_word_add(aw.as_slice(), bw[i], 0);
            let sum: Vec<Word> = if av.len() >= prod.len() {
                add_words(av.as_slice(), prod.as_slice())
            } else {
                add_words(prod.as_slice(), av.as_slice())
            };
            let mut buf = Buffer::allocate(sum.len());
            buf.extend(sum.as_slice());
            proof {
                assert(buf@ =~= sum@);
            }
            let ghost accv = acc@;
            acc = UBig::from_buffer(buf);
            proof {
                lemma_words_val_skip_step(bw@, i as int);
                let bb = word_base() as nat;
                assert(acc@ == words_val(bw@.skip(i as int)) * self@) by (nonlinear_arith)
                    requires
                        acc@ == bb * accv + words_val(aw@) * bw@[i as int] as nat + 0,
                        accv == words_val(bw@.skip(i as int + 1)) * self@,
                        words_val(aw@) == self@,
                        words_val(bw@.skip(i as int)) == bw@[i as int] as nat + bb * words_val(
                            bw@.skip(i as int + 1),
                        ),
                ;
            }
        }
        proof {
            assert(bw@.skip(0) =~= bw@);
            vstd::arithmetic::mul::lemma_mul_is_commutative(other@ as int, self@ as int);
        }
        acc
    }

    /// `self` raised to a machine-integer power, by repeated multiplication.
    pub fn pow(&self, exp: usize) -> (r: UBig)
        requires
            self.wf(),
            (exp + 1) * self.spec_num_words() + 3 <= MAX_CAPACITY,
        ensures
            r.wf(),
            r@ == pow(self@ as int, exp as nat),
    {
        let mut r = UBig::from_word(1);
        let mut k: usize = 0;
        proof {
            vstd::arithmetic::power::lemma_pow0(self@ as int);
            assert(r.spec_num_words() == 1);
        }
        while k < exp
            invariant
                k <= exp,
                r.wf(),
                self.wf(),
                r@ == pow(self@ as int, k as nat),
                r.spec_num_words() <= k * self.spec_num_words() + 1,
                (exp + 1) * self.spec_num_words() + 3 <= MAX_CAPACITY,
            decreases exp - k,
        {
            let ghost rv = r@;
            let ghost rnw = r.spec_num_words();
            let ghost snw = self.spec_num_words();
            proof {
                assert(k * snw <= exp * snw) by (nonlinear_arith)
                    requires k < exp && snw >= 0;
                assert((exp + 1) * snw == exp * snw + snw) by (nonlinear_arith);
                r.lemma_value_bound();
                crate::primitive::lemma_pow2_le_connect(
                    64 * rnw,
                    (64 * (k * snw + 1)) as nat,
                );
            }
            r = r.mul_ubig(self);
            k = k + 1;
            proof {
                vstd::arithmetic::power::lemma_pow_adds(self@ as int, (k - 1) as nat, 1);
                vstd::arithmetic::power::lemma_pow1(self@ as int);
                self.lemma_value_bound();
                assert(rv < pow2((64 * ((k - 1) * snw + 1)) as nat));
                // bound the canonical size of the new accumulator
                crate::primitive::lemma_prod_fits(
                    rv,
                    self@,
                    ((k - 1) * snw + 1) as nat,
                    snw,
                );
                r.lemma_num_words_le(((k - 1) * snw + 1 + snw) as nat);
                assert((k - 1) * snw + snw == k * snw) by (nonlinear_arith);
            }
        }
        r
    }
}

impl IBig {
    /// Signed product: multiply magnitudes, multiply signs.
    pub fn mul_ibig(&self, other: &IBig) -> (r: IBig)
        requires
            self.wf(),
            other.wf(),
            self.spec_num_words() + other.spec_num_words() + 2 <= MAX_CAPACITY,
        ensures
            r.wf(),
            r@ == self@ * other@,
    {
        let s = self.sign().product(other.sign());
        let mag = self.magnitude().mul_ubig(other.magnitude());
        let r = IBig::from_sign_magnitude(s, mag);
        proof {
            let x = self.magnitude@ as int;
            let y = other.magnitude@ as int;
            vstd::arithmetic::mul::lemma_mul_unary_negation(x, y);
            vstd::arithmetic::mul::lemma_mul_unary_negation(-x, y);
            vstd::arithmetic::mul::lemma_mul_is_commutative(x, y);
            vstd::arithmetic::mul::lemma_mul_is_commutative(-x, y);
            vstd::arithmetic::mul::lemma_mul_is_commutative(x, -y);
        }
        r
    }
}


impl IBig {
    /// A signed value raised to a machine-integer power: the magnitude is
    /// raised, and the sign survives exactly on odd powers of a negative
    /// base.
    pub fn pow(&self, exp: usize) -> (r: IBig)
        requires
            self.wf(),
            (exp + 1) * self.spec_num_words() + 3 <= MAX_CAPACITY,
        ensures
            r.wf(),
            r@ == pow(self@, exp as nat),
    {
        let mag = self.magnitude().pow(exp);
        let s = match self.sign() {
            Sign::Positive => Sign::Positive,
            Sign::Negative => {
                if exp % 2 == 0 {
                    Sign::Positive
                } else {
                    Sign::Negative
                }
            }
        };
        let r = IBig::from_sign_magnitude(s, mag);
        proof {
            let mv = self.magnitude@ as int;
            if self.sign is Negative {
                crate::math::lemma_pow_neg_one(exp as nat);
                vstd::arithmetic::power::lemma_pow_distributes(-1, mv, exp as nat);
                assert((-1) * mv == -mv) by (nonlinear_arith);
                assert(pow(-1, exp as nat) * pow(mv, exp as nat) == (if exp % 2 == 0 {
                    pow(mv, exp as nat)
                } else {
                    -pow(mv, exp as nat)
                })) by (nonlinear_arith)
                    requires pow(-1, exp as nat) == (if exp % 2 == 0 { 1int } else { -1int });
            }
        }
        r
    }
}
} // verus!
