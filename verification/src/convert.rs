//! Conversions between magnitudes and the outside world: little- and
//! big-endian byte strings in both directions, and machine integers both
//! ways.  Byte output is minimal: the top byte is never zero, and zero is
//! the empty byte string.

use vstd::prelude::*;
use vstd::arithmetic::power::pow;
use vstd::arithmetic::power2::pow2;
use vstd::arithmetic::power2::lemma_pow2_adds;
use vstd::arithmetic::power2::lemma2_to64;
use vstd::slice::slice_subrange;
use crate::buffer::Buffer;
use crate::error::OutOfRangeError;
use crate::math::le_val;
use crate::math::msb_val;
use crate::math::all_below;
use crate::math::lemma_le_val_append;
use crate::math::lemma_le_val_split;
use crate::math::lemma_le_val_zeros;
use crate::math::lemma_le_val_reverse;
use crate::math::lemma_msb_val_take_succ;
use crate::primitive::Word;
use crate::primitive::WORD_BYTES;
use crate::primitive::words_val;
use crate::primitive::bytes_val;
use crate::primitive::bytes_be_val;
use crate::primitive::nat_seq_u8;
use crate::primitive::word_from_le_bytes_partial;
use crate::primitive::word_to_le_bytes;
use crate::primitive::lemma_pow256_pow2;
use crate::primitive::lemma_words_val_take_succ;
use crate::primitive::split_dword;
use crate::sign::Sign;
use crate::ubig::Repr;
use crate::ubig::UBig;
use crate::ibig::IBig;
use crate::MAX_CAPACITY;

verus! {

/// The longest byte string the byte conversions accept: eight bytes per
/// word of the capacity cap, less the headroom the word-folding loop needs.
pub const MAX_BYTES_LEN: usize = 8 * MAX_CAPACITY - 64;

impl UBig {
    /// Construct from little-endian bytes.
    pub fn from_le_bytes(bytes: &[u8]) -> (r: UBig)
        requires
            bytes@.len() <= MAX_BYTES_LEN,
        ensures
            r.wf(),
            r@ == bytes_val(bytes@),
    {
        if bytes.len() <= WORD_BYTES {
            let w = word_from_le_bytes_partial(bytes);
            UBig::from_word(w)
        } else {
            UBig::from_le_bytes_large(bytes)
        }
    }

    /// The multi-word path: consume the bytes in word-sized chunks.
    fn from_le_bytes_large(bytes: &[u8]) -> (r: UBig)
        requires
            bytes@.len() <= MAX_BYTES_LEN,
        ensures
            r.wf(),
            r@ == bytes_val(bytes@),
    {
        let n = bytes.len();
        let mut buf = Buffer::allocate(n / WORD_BYTES + 1);
        let mut i: usize = 0;
        proof {
            assert(bytes@.take(0) =~= Seq::<u8>::empty());
            assert(nat_seq_u8(Seq::<u8>::empty()) =~= Seq::<nat>::empty());
            assert(nat_seq_u8(bytes@.take(0)) =~= Seq::<nat>::empty());
            assert(le_val(Seq::<nat>::empty(), 256) == 0);
            crate::primitive::lemma_words_val_empty();
        }
        while i < n
            invariant
                i <= n,
                n == bytes@.len() <= MAX_BYTES_LEN,
                i == 8 * buf@.len() || i == n,
                8 * buf@.len() <= i + 7,
                words_val(buf@) == bytes_val(bytes@.take(i as int)),
            decreases n - i,
        {
            let k: usize = if n - i < 8 {
                n - i
            } else {
                8
            };
            let chunk = slice_subrange(bytes, i, i + k);
            let w = word_from_le_bytes_partial(chunk);
            let ghost bufold = buf@;
            buf.push(w);
            proof {
                assert(buf@ =~= bufold.push(w));
                lemma_words_val_take_succ(buf@, bufold.len() as int);
                assert(buf@.take(bufold.len() as int) =~= bufold);
                assert(buf@.take(bufold.len() as int + 1) =~= buf@);
                // the new chunk sits at byte offset i == 8 * (i/8)
                let sa = nat_seq_u8(bytes@.take((i + k) as int));
                assert(sa.take(i as int) =~= nat_seq_u8(bytes@.take(i as int)));
                assert(sa.skip(i as int) =~= nat_seq_u8(chunk@));
                lemma_le_val_split(sa, i as int, 256);
                lemma_pow256_pow2(i as nat);
                assert(8 * i as nat == 64 * bufold.len());
            }
            i = i + k;
        }
        proof {
            assert(bytes@.take(n as int) =~= bytes@);
        }
        UBig::from_buffer(buf)
    }

    /// Construct from big-endian bytes.
    pub fn from_be_bytes(bytes: &[u8]) -> (r: UBig)
        requires
            bytes@.len() <= MAX_BYTES_LEN,
        ensures
            r.wf(),
            r@ == bytes_be_val(bytes@),
    {
        if bytes.len() <= WORD_BYTES {
            let w = crate::primitive::word_from_be_bytes_partial(bytes);
            UBig::from_word(w)
        } else {
            UBig::from_be_bytes_large(bytes)
        }
    }

    /// The multi-word path: fold the bytes from the most significant end.
    fn from_be_bytes_large(bytes: &[u8]) -> (r: UBig)
        requires
            bytes@.len() <= MAX_BYTES_LEN,
        ensures
            r.wf(),
            r@ == bytes_be_val(bytes@),
    {
        let n = bytes.len();
        let mut acc = UBig::from_word(0);
        let mut i: usize = 0;
        let ghost s = nat_seq_u8(bytes@);
        proof {
            assert(s.take(0) =~= Seq::<nat>::empty());
            assert(msb_val(Seq::<nat>::empty(), 256) == 0);
        }
        while i < n
            invariant
                i <= n,
                n == bytes@.len() <= MAX_BYTES_LEN,
                s == nat_seq_u8(bytes@),
                acc.wf(),
                acc@ == msb_val(s.take(i as int), 256),
            decreases n - i,
        {
            proof {
                let t = s.take(i as int);
                assert(all_below(t, 256));
                crate::math::lemma_msb_val_bound(t, 256);
                lemma_pow256_pow2(i as nat);
                // the accumulator takes at most an eighth of the cap in words
                crate::primitive::lemma_pow2_le_connect(
                    (8 * i) as nat,
                    (64 * (i / 8 + 1)) as nat,
                );
                assert(8 * i as nat <= 64 * (i as nat / 8 + 1)) by (nonlinear_arith)
                    requires i as nat == 8 * (i as nat / 8) + i as nat % 8 && 0 <= i as nat % 8
                        < 8;
                vstd::arithmetic::div_mod::lemma_fundamental_div_mod(i as int, 8);
                vstd::arithmetic::div_mod::lemma_mod_bound(i as int, 8);
                acc.lemma_num_words_le((i / 8 + 1) as nat);
                assert(i as nat / 8 + 1 + 2 <= MAX_CAPACITY) by (nonlinear_arith)
                    requires i as nat <= 0x7fffffc0 && i as nat / 8 <= i as nat && MAX_CAPACITY
                        == 0x10000000;
                vstd::arithmetic::div_mod::lemma_div_nonincreasing(i as int, 8);
                lemma_msb_val_take_succ(s, i as int, 256);
            }
            acc = acc.mul_add_word(256, bytes[i] as u64);
            i = i + 1;
        }
        proof {
            assert(s.take(n as int) =~= s);
        }
        acc
    }

    /// The little-endian bytes of the number, of minimal length: the top
    /// byte is nonzero, and zero is the empty string.
    pub fn to_le_bytes(&self) -> (r: Vec<u8>)
        requires
            self.wf(),
        ensures
            bytes_val(r@) == self@,
            r@.len() > 0 ==> r@.last() != 0,
            (r@.len() == 0) == (self@ == 0),
    {
        let words = self.to_word_vec();
        let n = words.len();
        let mut out: Vec<u8> = Vec::new();
        let mut i: usize = 0;
        proof {
            assert(nat_seq_u8(out@) =~= Seq::<nat>::empty());
            assert(le_val(Seq::<nat>::empty(), 256) == 0);
            assert(words@.take(0) =~= Seq::<Word>::empty());
            crate::primitive::lemma_words_val_empty();
        }
        while i < n
            invariant
                i <= n,
                n == words@.len(),
                out@.len() == 8 * i,
                bytes_val(out@) == words_val(words@.take(i as int)),
            decreases n - i,
        {
            let wb = word_to_le_bytes(words[i]);
            let ghost outold = out@;
            let mut wbm = wb;
            out.append(&mut wbm);
            proof {
                assert(nat_seq_u8(out@) =~= nat_seq_u8(outold) + nat_seq_u8(wb@));
                lemma_le_val_append(nat_seq_u8(outold), nat_seq_u8(wb@), 256);
                lemma_pow256_pow2((8 * i) as nat);
                assert(8 * (8 * i as nat) == 64 * i as nat) by (nonlinear_arith);
                lemma_words_val_take_succ(words@, i as int);
            }
            i = i + 1;
        }
        proof {
            assert(words@.take(n as int) =~= words@);
        }
        // strip the zero bytes from the top
        let mut m: usize = out.len();
        while m > 0 && out[m - 1] == 0
            invariant
                m <= out@.len(),
                bytes_val(out@) == self@,
                forall|j: int| m <= j < out@.len() ==> out@[j] == 0,
            decreases m,
        {
            m = m - 1;
        }
        let ghost outfull = out@;
        out.truncate(m);
        proof {
            assert(out@ =~= outfull.take(m as int));
            assert(nat_seq_u8(outfull).take(m as int) =~= nat_seq_u8(out@));
            lemma_le_val_split(nat_seq_u8(outfull), m as int, 256);
            lemma_le_val_zeros(nat_seq_u8(outfull).skip(m as int), 256);
            assert(pow(256, m as nat) * 0 == 0) by (nonlinear_arith);
            if out@.len() > 0 {
                assert(out@.last() == outfull[m - 1]);
            }
            if self@ == 0 && out@.len() > 0 {
                let u = nat_seq_u8(out@);
                crate::math::lemma_le_val_top_nonzero(u, 256);
                vstd::arithmetic::power::lemma_pow_positive(256, (u.len() - 1) as nat);
                assert(false);
            }
        }
        out
    }

    /// The big-endian bytes of the number, of minimal length: the first
    /// byte is nonzero, and zero is the empty string.
    pub fn to_be_bytes(&self) -> (r: Vec<u8>)
        requires
            self.wf(),
        ensures
            bytes_be_val(r@) == self@,
            r@.len() > 0 ==> r@[0] != 0,
            (r@.len() == 0) == (self@ == 0),
    {
        let le = self.to_le_bytes();
        let n = le.len();
        let mut out: Vec<u8> = Vec::new();
        let mut i: usize = 0;
        while i < n
            invariant
                i <= n,
                n == le@.len(),
                out@.len() == i,
                forall|j: int| 0 <= j < i ==> out@[j] == le@[n - 1 - j],
            decreases n - i,
        {
            out.push(le[n - 1 - i]);
            i = i + 1;
        }
        proof {
            assert(nat_seq_u8(out@) =~= nat_seq_u8(le@).reverse());
            lemma_le_val_reverse(nat_seq_u8(le@), 256);
            if out@.len() > 0 {
                assert(out@[0] == le@.last());
            }
        }
        out
    }
}

/// A marker for conversions that do not fit: the library's out-of-range
/// error value.
pub fn try_from_int_error() -> (r: OutOfRangeError) {
    OutOfRangeError
}

/// Convert an unsigned machine integer to a magnitude.
pub fn ubig_from_unsigned(x: u128) -> (r: UBig)
    ensures
        r.wf(),
        r@ == x as nat,
        r.spec_num_words() <= 2,
{
    let (lo, hi) = split_dword(x);
    if hi == 0 {
        UBig::from_word(lo)
    } else {
        let mut buf = Buffer::allocate(2);
        buf.push(lo);
        buf.push(hi);
        proof {
            assert(buf@ =~= seq![lo].push(hi));
            crate::primitive::lemma_words_val_push(seq![lo], hi);
            crate::primitive::lemma_words_val_singleton(lo);
            vstd::arithmetic::power2::lemma_pow2_adds(64, 0);
            assert(pow2((64 * seq![lo].len()) as nat) == pow2(64));
            crate::primitive::lemma_word_base_value();
            vstd::arithmetic::mul::lemma_mul_is_commutative(pow2(64) as int, hi as int);
        }
        UBig::from_buffer(buf)
    }
}

/// Convert a signed machine integer to a magnitude; negative values do not
/// fit.
pub fn ubig_from_signed(x: i128) -> (r: Result<UBig, OutOfRangeError>)
    ensures
        (r is Ok) == (x >= 0),
        r is Ok ==> r->Ok_0.wf() && r->Ok_0@ == x as nat,
{
    if x < 0 {
        Err(OutOfRangeError)
    } else {
        Ok(ubig_from_unsigned(x as u128))
    }
}

/// Convert words to an unsigned machine integer, when they fit.
pub fn unsigned_from_words(words: &[Word]) -> (r: Result<u128, OutOfRangeError>)
    requires
        words@.len() >= 2,
        words@.last() != 0,
    ensures
        (r is Ok) == (words_val(words@) <= u128::MAX),
        r is Ok ==> r->Ok_0 as nat == words_val(words@),
{
    if words.len() > 2 {
        proof {
            crate::primitive::lemma_words_val_top_nonzero(words@);
            crate::primitive::lemma_pow2_le_connect(128, (64 * (words@.len() - 1)) as nat);
            lemma_pow2_adds(64, 64);
            lemma2_to64();
        }
        Err(OutOfRangeError)
    } else {
        let lo = words[0];
        let hi = words[1];
        proof {
            assert(words@ =~= seq![lo].push(hi));
            crate::primitive::lemma_words_val_push(seq![lo], hi);
            crate::primitive::lemma_words_val_singleton(lo);
            vstd::arithmetic::power2::lemma_pow2_adds(64, 0);
            crate::primitive::lemma_word_base_value();
            vstd::arithmetic::mul::lemma_mul_is_commutative(pow2(64) as int, hi as int);
            lemma_pow2_adds(64, 64);
            lemma2_to64();
            assert(pow2((64 * seq![lo].len()) as nat) == pow2(64));
            crate::primitive::lemma_mul_bound(hi as nat, pow2(64), 1, 2);
            assert(hi as nat * pow2(64) + lo as nat <= u128::MAX) by (nonlinear_arith)
                requires
                    hi as nat <= 0xffffffffffffffff,
                    lo as nat <= 0xffffffffffffffff,
                    pow2(64) == 0x10000000000000000,
            ;
        }
        Ok(lo as u128 + (hi as u128) * 0x10000000000000000u128)
    }
}

/// Convert a magnitude to an unsigned machine integer, when it fits.
pub fn unsigned_from_ubig(num: &UBig) -> (r: Result<u128, OutOfRangeError>)
    requires
        num.wf(),
    ensures
        (r is Ok) == (num@ <= u128::MAX),
        r is Ok ==> r->Ok_0 as nat == num@,
{
    match &num.repr {
        Repr::Small(w) => {
            proof {
                lemma2_to64();
                lemma_pow2_adds(64, 64);
            }
            Ok(*w as u128)
        }
        Repr::Large(b) => unsigned_from_words(b.as_slice()),
    }
}

/// Convert a magnitude to a signed machine integer, when it fits.
pub fn signed_from_ubig(num: &UBig) -> (r: Result<i128, OutOfRangeError>)
    requires
        num.wf(),
    ensures
        (r is Ok) == (num@ <= i128::MAX),
        r is Ok ==> r->Ok_0 >= 0 && r->Ok_0 as nat == num@,
{
    match unsigned_from_ubig(num) {
        Ok(v) => {
            if v <= 0x7fffffffffffffffffffffffffffffffu128 {
                Ok(v as i128)
            } else {
                Err(OutOfRangeError)
            }
        }
        Err(e) => Err(e),
    }
}

impl UBig {
    /// `false` is zero, `true` is one.
    pub fn from_bool(b: bool) -> (r: UBig)
        ensures
            r.wf(),
            r@ == (if b {
                1nat
            } else {
                0nat
            }),
    {
        UBig::from_word(if b {
            1
        } else {
            0
        })
    }
}

impl IBig {
    /// Convert a signed machine integer to a signed big integer.
    pub fn from_i128(x: i128) -> (r: IBig)
        ensures
            r.wf(),
            r@ == x as int,
            r.spec_num_words() <= 2,
    {
        if x < 0 {
            let mag = if x == i128::MIN {
                proof {
                    lemma_pow2_adds(64, 64);
                    lemma2_to64();
                }
                ubig_from_unsigned(0x80000000000000000000000000000000u128)
            } else {
                ubig_from_unsigned((-x) as u128)
            };
            IBig::from_sign_magnitude(Sign::Negative, mag)
        } else {
            IBig::from_sign_magnitude(Sign::Positive, ubig_from_unsigned(x as u128))
        }
    }

    /// Convert an unsigned machine integer to a signed big integer.
    pub fn from_u128(x: u128) -> (r: IBig)
        ensures
            r.wf(),
            r@ == x as int,
            r.spec_num_words() <= 2,
    {
        IBig::from_sign_magnitude(Sign::Positive, ubig_from_unsigned(x))
    }

    /// Convert to a signed machine integer, when the value fits.
    pub fn to_i128(&self) -> (r: Result<i128, OutOfRangeError>)
        requires
            self.wf(),
        ensures
            (r is Ok) == (i128::MIN <= self@ <= i128::MAX),
            r is Ok ==> r->Ok_0 as int == self@,
    {
        match &self.sign {
            Sign::Positive => {
                match signed_from_ubig(&self.magnitude) {
                    Ok(v) => Ok(v),
                    Err(e) => Err(e),
                }
            }
            Sign::Negative => {
                match unsigned_from_ubig(&self.magnitude) {
                    Ok(v) => {
                        if v <= 0x80000000000000000000000000000000u128 {
                            proof {
                                lemma_pow2_adds(64, 64);
                                lemma2_to64();
                            }
                            if v == 0x80000000000000000000000000000000u128 {
                                Ok(i128::MIN)
                            } else {
                                Ok(-(v as i128))
                            }
                        } else {
                            Err(OutOfRangeError)
                        }
                    }
                    Err(e) => Err(e),
                }
            }
        }
    }
}

} // verus!
