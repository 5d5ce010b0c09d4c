//! Unsigned division: the short kernel dividing by a single word, and the
//! full division by an arbitrary nonzero magnitude, built bit by bit on the
//! verified add/sub/compare machinery.  Signed division truncates toward
//! zero and gives the remainder the sign of the dividend.

use vstd::prelude::*;
use vstd::arithmetic::power2::pow2;
use vstd::arithmetic::power2::lemma_pow2_adds;
use vstd::arithmetic::power2::lemma_pow2_pos;
use vstd::arithmetic::power2::lemma2_to64;
use vstd::arithmetic::div_mod::lemma_fundamental_div_mod;
use vstd::arithmetic::div_mod::lemma_fundamental_div_mod_converse;
use vstd::arithmetic::div_mod::lemma_div_denominator;
use vstd::arithmetic::div_mod::lemma_multiply_divide_lt;
use vstd::arithmetic::div_mod::lemma_hoist_over_denominator;
use vstd::arithmetic::div_mod::lemma_mod_multiples_vanish;
use vstd::arithmetic::div_mod::lemma_div_multiples_vanish_fancy;
use vstd::arithmetic::mul::lemma_mul_inequality;
use crate::primitive::Word;
use crate::primitive::words_val;
use crate::primitive::word_base;
use crate::primitive::bit_len;
use crate::primitive::pow2_word;
use crate::primitive::lemma_word_base_value;
use crate::primitive::lemma_words_val_empty;
use crate::primitive::lemma_words_val_skip_step;
use crate::primitive::lemma_words_val_split;
use crate::primitive::lemma_words_val_bound;
use crate::ubig::UBig;
use crate::ibig::IBig;
use crate::MAX_CAPACITY;

verus! {

/// Short division: divide a word buffer by a single nonzero word, walking
/// the dividend from the top with a running remainder.
pub(crate) fn div_rem_words_by_word(a: &[Word], d: Word) -> (res: (Vec<Word>, Word))
    requires
        d >= 1,
    ensures
        words_val(res.0@) * d as nat + res.1 as nat == words_val(a@),
        (res.1 as nat) < d as nat,
        res.0@.len() == a@.len(),
{
    let n = a.len();
    let mut q: Vec<Word> = Vec::with_capacity(n);
    let mut i: usize = 0;
    while i < n
        invariant
            i <= n,
            q@.len() == i,
        decreases n - i,
    {
        q.push(0);
        i = i + 1;
    }
    let mut rem: u64 = 0;
    let mut i: usize = n;
    proof {
        assert(a@.skip(n as int) =~= Seq::<Word>::empty());
        assert(q@.skip(n as int) =~= Seq::<Word>::empty());
        lemma_words_val_empty();
        assert(words_val(Seq::<Word>::empty()) * d as nat == 0) by (nonlinear_arith);
    }
    while i > 0
        invariant
            i <= n,
            n == a@.len(),
            q@.len() == n,
            (rem as nat) < d as nat,
            words_val(q@.skip(i as int)) * d as nat + rem as nat == words_val(a@.skip(i as int)),
        decreases i,
    {
        i = i - 1;
        proof {
            lemma_word_base_value();
            // rem * B + a[i] stays below d * B <= 2^128
            assert(rem as nat * word_base() + a@[i as int] as nat
                <= 0xffffffffffffffffffffffffffffffff) by (nonlinear_arith)
                requires (rem as nat) < d as nat && d as nat <= 0xffffffffffffffff && (a@[
                    i as int
                ] as nat) < 0x10000000000000000 && word_base() == 0x10000000000000000;
        }
        let cur: u128 = rem as u128 * 0x10000000000000000u128 + a[i] as u128;
        proof {
            // the quotient digit fits in a word
            assert((cur as nat) < d as nat * word_base()) by (nonlinear_arith)
                requires
                    cur as nat == rem as nat * word_base() + a@[i as int] as nat,
                    (rem as nat) < d as nat,
                    (a@[i as int] as nat) < word_base(),
                    word_base() > 0,
            ;
            lemma_multiply_divide_lt(cur as int, d as int, word_base() as int);
            lemma_fundamental_div_mod(cur as int, d as int);
            vstd::arithmetic::div_mod::lemma_mod_bound(cur as int, d as int);
        }
        let qd = (cur / d as u128) as u64;
        let newrem = (cur % d as u128) as u64;
        let ghost qold = q@;
        q[i] = qd;
        let ghost qs1 = words_val(qold.skip(i as int + 1));
        let ghost as1 = words_val(a@.skip(i as int + 1));
        proof {
            assert(q@.skip(i as int).drop_first() =~= qold.skip(i as int + 1));
            assert(q@.skip(i as int + 1) =~= qold.skip(i as int + 1));
            assert(q@.skip(i as int)[0] == qd);
            lemma_words_val_skip_step(q@, i as int);
            lemma_words_val_skip_step(a@, i as int);
            assert(words_val(q@.skip(i as int)) * d as nat + newrem as nat == words_val(
                a@.skip(i as int),
            )) by (nonlinear_arith)
                requires
                    words_val(q@.skip(i as int)) == qd as nat + word_base() * qs1,
                    words_val(a@.skip(i as int)) == a@[i as int] as nat + word_base() * as1,
                    qs1 * d as nat + rem as nat == as1,
                    cur as nat == d as nat * (qd as nat) + newrem as nat,
                    cur as nat == rem as nat * 0x10000000000000000 + a@[i as int] as nat,
                    word_base() == 0x10000000000000000,
            ;
        }
        rem = newrem;
    }
    proof {
        assert(a@.skip(0) =~= a@);
        assert(q@.skip(0) =~= q@);
    }
    (q, rem)
}

impl UBig {
    /// Quotient and remainder by a single nonzero word.
    pub fn div_rem_word(&self, d: Word) -> (res: (UBig, Word))
        requires
            self.wf(),
            d != 0,
        ensures
            res.0.wf(),
            res.0@ == self@ / d as nat,
            res.1 as nat == self@ % d as nat,
            res.0.spec_num_words() <= self.spec_num_words(),
    {
        let aw = self.to_word_vec();
        let (qw, r) = div_rem_words_by_word(aw.as_slice(), d);
        let mut buf = crate::buffer::Buffer::allocate(qw.len());
        buf.extend(qw.as_slice());
        proof {
            assert(buf@ =~= qw@);
        }
        let q = UBig::from_buffer(buf);
        proof {
            lemma_fundamental_div_mod_converse(
                self@ as int,
                d as int,
                words_val(qw@) as int,
                r as int,
            );
            self.lemma_value_bound();
            lemma_mul_inequality(1, d as int, q@ as int);
            vstd::arithmetic::mul::lemma_mul_is_commutative(d as int, q@ as int);
            q.lemma_num_words_le(self.spec_num_words());
        }
        (q, r)
    }

    /// The number of significant bits: zero for zero, else the exponent of
    /// the highest nonzero bit plus one.
    pub fn bit_len(&self) -> (r: u64)
        requires
            self.wf(),
        ensures
            self@ < pow2(r as nat),
            r > 0 ==> self@ >= pow2((r - 1) as nat),
            (r == 0) == (self@ == 0),
            r <= 64 * self.spec_num_words(),
    {
        match &self.repr {
            crate::ubig::Repr::Small(w) => {
                let b = bit_len(*w);
                proof {
                    if b > 0 {
                        lemma_pow2_pos((b - 1) as nat);
                    }
                }
                b as u64
            }
            crate::ubig::Repr::Large(buf) => {
                let n = buf.len();
                let top = buf.get(n - 1);
                let tb = bit_len(top);
                proof {
                    self.lemma_large_is_big();
                    let s = buf@;
                    lemma_words_val_split(s, n as int - 1);
                    assert(s.skip(n as int - 1) =~= seq![s.last()]);
                    crate::primitive::lemma_words_val_singleton(s.last());
                    let p = pow2((64 * (n - 1)) as nat);
                    let lo = words_val(s.take(n as int - 1));
                    lemma_words_val_bound(s.take(n as int - 1));
                    lemma_pow2_pos((64 * (n - 1)) as nat);
                    lemma_pow2_pos(tb as nat);
                    // upper bound: lo + p*top < p * 2^tb
                    assert(self@ < p * pow2(tb as nat)) by (nonlinear_arith)
                        requires
                            self@ == lo + p * (top as nat),
                            lo < p,
                            (top as nat) < pow2(tb as nat),
                            p > 0,
                    ;
                    lemma_pow2_adds((64 * (n - 1)) as nat, tb as nat);
                    // lower bound: p * top >= p * 2^(tb-1)
                    assert(top as nat >= pow2((tb - 1) as nat));
                    assert(self@ >= p * pow2((tb - 1) as nat)) by (nonlinear_arith)
                        requires
                            self@ == lo + p * (top as nat),
                            lo >= 0,
                            (top as nat) >= pow2((tb - 1) as nat),
                            p > 0,
                    ;
                    lemma_pow2_adds((64 * (n - 1)) as nat, (tb - 1) as nat);
                    lemma_pow2_pos((64 * (n - 1) + (tb - 1)) as nat);
                }
                64 * (n as u64 - 1) + tb as u64
            }
        }
    }

    /// Quotient and remainder: `self == q * other + r` with `r < other`.
    /// Division by zero is excluded by contract.
    pub fn div_rem(&self, other: &UBig) -> (res: (UBig, UBig))
        requires
            self.wf(),
            other.wf(),
            other@ > 0,
            self.spec_num_words() + 2 <= MAX_CAPACITY,
            other.spec_num_words() + 2 <= MAX_CAPACITY,
        ensures
            res.0.wf(),
            res.1.wf(),
            res.0@ == self@ / other@,
            res.1@ == self@ % other@,
            res.0.spec_num_words() <= self.spec_num_words(),
    {
        let aw = self.to_word_vec();
        let nbits = self.bit_len();
        let mut q = UBig::from_word(0);
        let mut rem = UBig::from_word(0);
        let mut k: u64 = nbits;
        let ghost av = self@;
        let ghost dv = other@;
        proof {
            lemma_pow2_pos(nbits as nat);
            lemma_multiply_divide_lt(av as int, pow2(nbits as nat) as int, 1);
            assert(pow2(nbits as nat) * 1 == pow2(nbits as nat));
            assert(av / pow2(nbits as nat) == 0);
            assert(0 * dv == 0) by (nonlinear_arith);
        }
        while k > 0
            invariant
                k <= nbits,
                nbits as nat <= 64 * self.spec_num_words(),
                self.wf(),
                other.wf(),
                aw@.len() == self.spec_num_words(),
                words_val(aw@) == av,
                av == self@,
                dv == other@,
                dv > 0,
                self.spec_num_words() + 2 <= MAX_CAPACITY,
                other.spec_num_words() + 2 <= MAX_CAPACITY,
                q.wf(),
                rem.wf(),
                q@ * dv + rem@ == av / pow2(k as nat),
                rem@ < dv,
            decreases k,
        {
            k = k - 1;
            // extract bit k of the dividend from its words
            let j: usize = (k / 64) as usize;
            let b: u64 = k % 64;
            proof {
                lemma_fundamental_div_mod(k as int, 64);
                // k < nbits <= 64 * len, so the word index is in range
                lemma_multiply_divide_lt(k as int, 64, aw@.len() as int);
            }
            let wj = aw[j];
            let pb = pow2_word(b);
            proof {
                lemma_pow2_pos(b as nat);
            }
            let bitv: u64 = (wj / pb) % 2;
            proof {
                lemma_bit_from_words(aw@, k as nat);
            }
            // rem <- 2*rem + bit, then reduce by the divisor if needed
            proof {
                other.lemma_value_bound();
                rem.lemma_num_words_le(other.spec_num_words());
            }
            let rem2 = rem.mul_add_word(2, bitv);
            let ghost remv = rem@;
            let ghost rem2v = rem2@;
            // the doubled remainder is the next partial dividend minus q*2*d
            proof {
                lemma_pow2_pos(k as nat);
                lemma_div_denominator(av as int, pow2(k as nat) as int, 2);
                lemma_pow2_adds(k as nat, 1);
                lemma2_to64();
                lemma_fundamental_div_mod(av as int / pow2(k as nat) as int, 2);
                assert(pow2(k as nat) * 2 == pow2((k + 1) as nat));
            }
            let qbit: u64;
            let newrem: UBig;
            if rem2.lt(other) {
                qbit = 0;
                newrem = rem2;
            } else {
                qbit = 1;
                newrem = rem2.sub_ubig(other);
            }
            proof {
                self.lemma_value_bound();
                lemma_mul_inequality(1, dv as int, q@ as int);
                vstd::arithmetic::mul::lemma_mul_is_commutative(dv as int, q@ as int);
                lemma_div_is_le_self(av, pow2(k as nat));
                q.lemma_num_words_le(self.spec_num_words());
            }
            let newq = q.mul_add_word(2, qbit);
            proof {
                let qv = q@;
                assert(newq@ * dv + newrem@ == av / pow2(k as nat)) by (nonlinear_arith)
                    requires
                        newq@ == qv * 2 + qbit as nat,
                        qbit as nat == if rem2v >= dv { 1nat } else { 0nat },
                        newrem@ == if rem2v >= dv { (rem2v - dv) as nat } else { rem2v },
                        rem2v == remv * 2 + bitv as nat,
                        qv * dv + remv == av / pow2((k + 1) as nat),
                        av / pow2(k as nat) == 2 * (av / pow2((k + 1) as nat)) + (av / pow2(
                            k as nat,
                        )) % 2,
                        bitv as nat == (av / pow2(k as nat)) % 2,
                ;
                assert(newrem@ < dv) by (nonlinear_arith)
                    requires
                        newrem@ == if rem2v >= dv { (rem2v - dv) as nat } else { rem2v },
                        rem2v == remv * 2 + bitv as nat,
                        remv < dv,
                        bitv as nat <= 1,
                ;
            }
            q = newq;
            rem = newrem;
        }
        proof {
            lemma2_to64();
            assert(pow2(0) == 1);
            assert(av / 1 == av) by {
                vstd::arithmetic::div_mod::lemma_div_basics(av as int);
            }
            lemma_fundamental_div_mod_converse(av as int, dv as int, q@ as int, rem@ as int);
            self.lemma_value_bound();
            lemma_mul_inequality(1, dv as int, q@ as int);
            vstd::arithmetic::mul::lemma_mul_is_commutative(dv as int, q@ as int);
            q.lemma_num_words_le(self.spec_num_words());
        }
        (q, rem)
    }

    /// The quotient alone.
    pub fn div_ubig(&self, other: &UBig) -> (r: UBig)
        requires
            self.wf(),
            other.wf(),
            other@ > 0,
            self.spec_num_words() + 2 <= MAX_CAPACITY,
            other.spec_num_words() + 2 <= MAX_CAPACITY,
        ensures
            r.wf(),
            r@ == self@ / other@,
    {
        self.div_rem(other).0
    }

    /// The remainder alone.
    pub fn rem_ubig(&self, other: &UBig) -> (r: UBig)
        requires
            self.wf(),
            other.wf(),
            other@ > 0,
            self.spec_num_words() + 2 <= MAX_CAPACITY,
            other.spec_num_words() + 2 <= MAX_CAPACITY,
        ensures
            r.wf(),
            r@ == self@ % other@,
    {
        self.div_rem(other).1
    }
}

/// `x / d <= x` for positive `d`.
proof fn lemma_div_is_le_self(x: nat, d: nat)
    requires
        d >= 1,
    ensures
        x / d <= x,
{
    vstd::arithmetic::div_mod::lemma_div_nonincreasing(x as int, d as int);
}

/// Bit `k` of the value of a word buffer is bit `k % 64` of word `k / 64`.
pub(crate) proof fn lemma_bit_from_words(s: Seq<Word>, k: nat)
    requires
        k / 64 < s.len(),
    ensures
        (words_val(s) / pow2(k)) % 2 == ((s[(k / 64) as int] as nat) / pow2(k % 64)) % 2,
{
    let j = k / 64;
    let b = k % 64;
    let v = words_val(s);
    let p = pow2(64 * j);
    let lo = words_val(s.take(j as int));
    let hi = words_val(s.skip(j as int));
    lemma_words_val_split(s, j as int);
    lemma_words_val_bound(s.take(j as int));
    lemma_pow2_pos(64 * j);
    lemma_pow2_pos(b);
    lemma_pow2_pos(k);
    // v / 2^(64 j) == hi
    assert(v == p * hi + lo) by (nonlinear_arith)
        requires v == lo + p * hi;
    lemma_div_multiples_vanish_fancy(hi as int, lo as int, p as int);
    assert(v as int / p as int == hi);
    // v / 2^k == hi / 2^b
    lemma_fundamental_div_mod(k as int, 64);
    assert(64 * j + b == k);
    lemma_pow2_adds(64 * j, b);
    lemma_div_denominator(v as int, p as int, pow2(b) as int);
    assert(v as int / pow2(k) as int == hi as int / pow2(b) as int);
    // hi == w_j + 2^64 * rest; peel the word
    lemma_words_val_skip_step(s, j as int);
    let wj = s[j as int] as nat;
    let rest = words_val(s.skip(j as int + 1));
    assert(hi == wj + word_base() * rest);
    // hi / 2^b == wj / 2^b + 2^(64-b) * rest
    lemma_pow2_adds(b, (64 - b) as nat);
    lemma_word_base_value();
    assert(word_base() == pow2(b) * pow2((64 - b) as nat));
    lemma_pow2_pos((64 - b) as nat);
    lemma_hoist_over_denominator(wj as int, (pow2((64 - b) as nat) * rest) as int, pow2(b));
    assert((wj + (pow2((64 - b) as nat) * rest) * pow2(b)) as int == hi) by (nonlinear_arith)
        requires
            hi == wj + word_base() * rest,
            word_base() == pow2(b) * pow2((64 - b) as nat),
    ;
    assert(hi as int / pow2(b) as int == wj as int / pow2(b) as int + pow2((64 - b) as nat)
        * rest);
    // the added part is even, so it vanishes modulo 2
    lemma_pow2_adds(1, (63 - b) as nat);
    lemma2_to64();
    assert(pow2((64 - b) as nat) == 2 * pow2((63 - b) as nat)) by (nonlinear_arith)
        requires pow2((64 - b) as nat) == pow2(1) * pow2((63 - b) as nat) && pow2(1) == 2;
    assert(pow2((64 - b) as nat) * rest == 2 * (pow2((63 - b) as nat) * rest))
        by (nonlinear_arith)
        requires pow2((64 - b) as nat) == 2 * pow2((63 - b) as nat);
    lemma_mod_multiples_vanish(
        (pow2((63 - b) as nat) * rest) as int,
        (wj / pow2(b)) as int,
        2,
    );
}

impl IBig {
    /// Signed quotient and remainder, truncating toward zero: the magnitudes
    /// divide, the quotient multiplies the signs, and the remainder takes the
    /// sign of the dividend, with `self == q * other + r` and `|r| < |other|`.
    pub fn div_rem(&self, other: &IBig) -> (res: (IBig, IBig))
        requires
            self.wf(),
            other.wf(),
            other@ != 0,
            self.spec_num_words() + 2 <= MAX_CAPACITY,
            other.spec_num_words() + 2 <= MAX_CAPACITY,
        ensures
            res.0.wf(),
            res.1.wf(),
            self@ == res.0@ * other@ + res.1@,
            res.0@ == (if self@ >= 0 {
                self@
            } else {
                -self@
            }) / (if other@ >= 0 {
                other@
            } else {
                -other@
            }) * (if (self@ >= 0) == (other@ >= 0) {
                1int
            } else {
                -1int
            }),
            res.1@ == (if self@ >= 0 {
                1int
            } else {
                -1int
            }) * ((if self@ >= 0 {
                self@
            } else {
                -self@
            }) % (if other@ >= 0 {
                other@
            } else {
                -other@
            })),
    {
        proof {
            assert(other.magnitude@ > 0);
        }
        let (qm, rm) = self.magnitude().div_rem(other.magnitude());
        let qs = self.sign().product(other.sign());
        let q = IBig::from_sign_magnitude(qs, qm);
        let r = IBig::from_sign_magnitude(self.sign(), rm);
        proof {
            let ma = self.magnitude@ as int;
            let mb = other.magnitude@ as int;
            lemma_fundamental_div_mod(ma, mb);
            let mq = qm@ as int;
            let mr = rm@ as int;
            assert(ma == mq * mb + mr) by (nonlinear_arith)
                requires ma == mb * (ma / mb) + ma % mb && mq == ma / mb && mr == ma % mb;
            if self.sign is Positive && other.sign is Positive {
                assert(self@ == q@ * other@ + r@) by (nonlinear_arith)
                    requires ma == mq * mb + mr && self@ == ma && other@ == mb && q@ == mq && r@
                        == mr;
            } else if self.sign is Positive && other.sign is Negative {
                assert(self@ == q@ * other@ + r@) by (nonlinear_arith)
                    requires ma == mq * mb + mr && self@ == ma && other@ == -mb && q@ == -mq && r@
                        == mr;
                assert(q@ == mq * -1) by (nonlinear_arith)
                    requires q@ == -mq;
            } else if self.sign is Negative && other.sign is Positive {
                assert(self@ == q@ * other@ + r@) by (nonlinear_arith)
                    requires ma == mq * mb + mr && self@ == -ma && other@ == mb && q@ == -mq && r@
                        == -mr;
                assert(q@ == mq * -1) by (nonlinear_arith)
                    requires q@ == -mq;
            } else {
                assert(self@ == q@ * other@ + r@) by (nonlinear_arith)
                    requires ma == mq * mb + mr && self@ == -ma && other@ == -mb && q@ == mq && r@
                        == -mr;
            }
            assert(mq * 1 == mq) by (nonlinear_arith);
            assert(mr * 1 == mr) by (nonlinear_arith);
            assert((-1) * mr == -mr) by (nonlinear_arith);
        }
        (q, r)
    }

    /// The truncating quotient alone.
    pub fn div_ibig(&self, other: &IBig) -> (r: IBig)
        requires
            self.wf(),
            other.wf(),
            other@ != 0,
            self.spec_num_words() + 2 <= MAX_CAPACITY,
            other.spec_num_words() + 2 <= MAX_CAPACITY,
        ensures
            r.wf(),
            r@ == (if self@ >= 0 {
                self@
            } else {
                -self@
            }) / (if other@ >= 0 {
                other@
            } else {
                -other@
            }) * (if (self@ >= 0) == (other@ >= 0) {
                1int
            } else {
                -1int
            }),
    {
        self.div_rem(other).0
    }

    /// The remainder alone; it carries the sign of the dividend.
    pub fn rem_ibig(&self, other: &IBig) -> (r: IBig)
        requires
            self.wf(),
            other.wf(),
            other@ != 0,
            self.spec_num_words() + 2 <= MAX_CAPACITY,
            other.spec_num_words() + 2 <= MAX_CAPACITY,
        ensures
            r.wf(),
            r@ == (if self@ >= 0 {
                1int
            } else {
                -1int
            }) * ((if self@ >= 0 {
                self@
            } else {
                -self@
            }) % (if other@ >= 0 {
                other@
            } else {
                -other@
            })),
    {
        self.div_rem(other).1
    }
}

} // verus!
