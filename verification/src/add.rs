//! Unsigned addition and subtraction kernels, and the public add/sub of the
//! magnitude type.

use vstd::prelude::*;
use vstd::arithmetic::power2::pow2;
use vstd::arithmetic::power2::lemma_pow2_pos;
use crate::buffer::Buffer;
use crate::primitive::Word;
use crate::primitive::words_val;
use crate::primitive::word_base;
use crate::primitive::split_dword;
use crate::primitive::lemma_word_base_value;
use crate::primitive::lemma_words_val_empty;
use crate::primitive::lemma_words_val_push;
use crate::primitive::lemma_words_val_take_succ;
use crate::primitive::lemma_words_val_bound;
use crate::primitive::lemma_carry_step;
use crate::primitive::lemma_mul_three;
use crate::primitive::lemma_mul_two;
use crate::ubig::UBig;
use crate::MAX_CAPACITY;

verus! {

/// Sum of two word buffers; the result has one more word than the longer
/// operand (its top word may be zero before canonicalization).
pub(crate) fn add_words(a: &[Word], b: &[Word]) -> (r: Vec<Word>)
    requires
        a@.len() >= b@.len(),
        a@.len() < usize::MAX,
    ensures
        words_val(r@) == words_val(a@) + words_val(b@),
        r@.len() == a@.len() + 1,
{
    let na = a.len();
    let nb = b.len();
    let mut out: Vec<Word> = Vec::with_capacity(na + 1);
    let mut carry: u64 = 0;
    let mut i: usize = 0;
    proof {
        lemma_words_val_empty();
        assert(a@.take(0) =~= Seq::<Word>::empty());
        assert(b@.take(0) =~= Seq::<Word>::empty());
        assert(out@ =~= Seq::<Word>::empty());
        vstd::arithmetic::power2::lemma2_to64();
        assert(pow2(0) == 1);
    }
    while i < na
        invariant
            i <= na,
            na == a@.len(),
            nb == b@.len(),
            nb <= na < usize::MAX,
            out@.len() == i,
            carry <= 1,
            words_val(out@) + pow2(64 * i as nat) * carry as nat == words_val(a@.take(i as int))
                + words_val(b@.take(if i <= nb { i as int } else { nb as int })),
        decreases na - i,
    {
        let bi: u64 = if i < nb {
            b[i]
        } else {
            0
        };
        let s: u128 = a[i] as u128 + bi as u128 + carry as u128;
        let (lo, hi) = split_dword(s);
        let ghost p = pow2(64 * i as nat);
        proof {
            lemma_words_val_push(out@, lo);
            lemma_words_val_take_succ(a@, i as int);
            if i < nb {
                lemma_words_val_take_succ(b@, i as int);
            } else {
                assert(b@.take(nb as int) =~= b@.take(nb as int));
            }
            lemma_carry_step(i as nat, lo as nat, hi as nat);
            lemma_mul_three(p as int, a@[i as int] as int, bi as int, carry as int);
            assert(hi <= 1) by {
                lemma_word_base_value();
                vstd::arithmetic::div_mod::lemma_div_is_ordered(
                    s as int,
                    0x1ffffffffffffffff,
                    word_base() as int,
                );
                assert(0x1ffffffffffffffffint / 0x10000000000000000int == 1);
            }
        }
        out.push(lo);
        carry = hi;
        i = i + 1;
    }
    proof {
        assert(a@.take(na as int) =~= a@);
        assert(b@.take(nb as int) =~= b@);
        lemma_words_val_push(out@, carry);
    }
    out.push(carry);
    out
}

/// Difference of two word buffers, `a - b`, which must be nonnegative.
pub(crate) fn sub_words(a: &[Word], b: &[Word]) -> (r: Vec<Word>)
    requires
        a@.len() >= b@.len(),
        words_val(a@) >= words_val(b@),
    ensures
        words_val(r@) == words_val(a@) - words_val(b@),
        r@.len() == a@.len(),
{
    let na = a.len();
    let nb = b.len();
    let mut out: Vec<Word> = Vec::with_capacity(na);
    let mut borrow: u64 = 0;
    let mut i: usize = 0;
    proof {
        lemma_words_val_empty();
        assert(a@.take(0) =~= Seq::<Word>::empty());
        assert(b@.take(0) =~= Seq::<Word>::empty());
        assert(out@ =~= Seq::<Word>::empty());
        vstd::arithmetic::power2::lemma2_to64();
        assert(pow2(0) == 1);
    }
    while i < na
        invariant
            i <= na,
            na == a@.len(),
            nb == b@.len(),
            nb <= na,
            out@.len() == i,
            borrow <= 1,
            words_val(out@) as int == words_val(a@.take(i as int)) as int - words_val(
                b@.take(if i <= nb { i as int } else { nb as int }),
            ) as int + pow2(64 * i as nat) * borrow as nat,
        decreases na - i,
    {
        let bi: u64 = if i < nb {
            b[i]
        } else {
            0
        };
        let av: u128 = a[i] as u128;
        let sv: u128 = bi as u128 + borrow as u128;
        let ghost p = pow2(64 * i as nat);
        let (d, bor): (u64, u64) = if av >= sv {
            proof {
                lemma_word_base_value();
            }
            ((av - sv) as u64, 0u64)
        } else {
            proof {
                lemma_word_base_value();
            }
            ((av + 0x10000000000000000u128 - sv) as u64, 1u64)
        };
        proof {
            lemma_word_base_value();
            let bb = word_base() as int;
            let ai = a@[i as int] as int;
            let biv = bi as int;
            let bo = borrow as int;
            let br = bor as int;
            if bor == 0 {
                assert(br * bb == 0);
            } else {
                assert(br * bb == bb);
            }
            // the word-level borrow identity
            assert(d as int == ai - biv - bo + br * bb);
            lemma_words_val_push(out@, d);
            lemma_words_val_take_succ(a@, i as int);
            if i < nb {
                lemma_words_val_take_succ(b@, i as int);
            }
            // p * d == p*ai - p*biv - p*bo + p*(B*br)
            lemma_mul_two(p as int, ai - biv - bo, br * bb);
            lemma_mul_three(p as int, ai, -biv, -bo);
            vstd::arithmetic::mul::lemma_mul_unary_negation(p as int, biv);
            vstd::arithmetic::mul::lemma_mul_unary_negation(p as int, bo);
            assert(p * (d as int) == p * ai - p * biv - p * bo + p * (br * bb));
            vstd::arithmetic::mul::lemma_mul_is_commutative(br, bb);
            // and p*(B*br) is the borrow at the next position
            lemma_carry_step(i as nat, 0, bor as nat);
            assert(p * 0 == 0);
            assert(pow2(64 * ((i + 1) as nat)) * (bor as nat) == p * (bb * br));
            assert(words_val(out@.push(d)) as int == words_val(out@) as int + p * (d as int));
            assert(words_val(out@.push(d)) as int == words_val(a@.take(i as int)) as int + p * ai
                - (words_val(b@.take(if i < nb { i as int } else { nb as int })) as int + p * biv)
                + pow2(64 * ((i + 1) as nat)) * (bor as nat));
        }
        out.push(d);
        borrow = bor;
        i = i + 1;
    }
    proof {
        assert(a@.take(na as int) =~= a@);
        assert(b@.take(nb as int) =~= b@);
        if borrow == 1 {
            lemma_words_val_bound(out@);
            lemma_pow2_pos(64 * na as nat);
            assert(pow2(64 * na as nat) * 1nat == pow2(64 * na as nat));
            assert(false);
        }
        assert(pow2(64 * na as nat) * 0nat == 0);
    }
    out
}

impl UBig {
    /// Magnitude addition: `self + other`.
    pub fn add_ubig(&self, other: &UBig) -> (r: UBig)
        requires
            self.wf(),
            other.wf(),
            self.spec_num_words() < MAX_CAPACITY,
            other.spec_num_words() < MAX_CAPACITY,
        ensures
            r.wf(),
            r@ == self@ + other@,
    {
        let aw = self.to_word_vec();
        let bw = other.to_word_vec();
        let sum: Vec<Word> = if aw.len() >= bw.len() {
            add_words(aw.as_slice(), bw.as_slice())
        } else {
            add_words(bw.as_slice(), aw.as_slice())
        };
        let mut buf = Buffer::allocate(sum.len());
        buf.extend(sum.as_slice());
        proof {
            assert(buf@ =~= sum@);
        }
        UBig::from_buffer(buf)
    }

    /// Magnitude subtraction: `self - other`, defined when `other <= self`.
    pub fn sub_ubig(&self, other: &UBig) -> (r: UBig)
        requires
            self.wf(),
            other.wf(),
            other@ <= self@,
        ensures
            r.wf(),
            r@ == self@ - other@,
    {
        let aw = self.to_word_vec();
        let bw = other.to_word_vec();
        proof {
            if aw@.len() < bw@.len() {
                // a shorter canonical buffer holds the smaller value
                lemma_words_val_bound(aw@);
                crate::primitive::lemma_words_val_top_nonzero(bw@);
                crate::primitive::lemma_pow2_le_connect(
                    (64 * aw@.len()) as nat,
                    (64 * (bw@.len() - 1)) as nat,
                );
                assert(false);
            }
        }
        let diff = sub_words(aw.as_slice(), bw.as_slice());
        let mut buf = Buffer::allocate(diff.len());
        buf.extend(diff.as_slice());
        proof {
            assert(buf@ =~= diff@);
        }
        UBig::from_buffer(buf)
    }
}

} // verus!
