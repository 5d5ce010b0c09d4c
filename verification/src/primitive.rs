//! The word layer: the fixed-width machine word used as a limb, with the
//! helpers the kernels build on -- powers of two, bit length, double-word
//! splitting, and partial-word endian decoding.

use vstd::prelude::*;
use vstd::arithmetic::power::pow;
use vstd::arithmetic::power2::pow2;
use vstd::arithmetic::power2::lemma_pow2_adds;
use vstd::arithmetic::power2::lemma_pow2_pos;
use vstd::arithmetic::power2::lemma_pow2_strictly_increases;
use vstd::arithmetic::power2::lemma2_to64;
use vstd::arithmetic::power::lemma_pow_multiplies;
use vstd::arithmetic::power2::lemma_pow2;
use vstd::arithmetic::div_mod::lemma_fundamental_div_mod;
use vstd::arithmetic::div_mod::lemma_div_denominator;
use vstd::arithmetic::div_mod::lemma_remainder_lower;
use vstd::arithmetic::mul::lemma_mul_inequality;
use crate::math::le_val;
use crate::math::msb_val;
use crate::math::all_below;
use crate::math::lemma_le_val_bound;
use crate::math::lemma_le_val_skip_step;
use crate::math::lemma_msb_val_take_succ;
use crate::math::lemma_msb_val_bound;

verus! {

/// The machine word the magnitudes are built from.
pub type Word = u64;

pub const WORD_BITS: u32 = 64;

pub const WORD_BYTES: usize = 8;

/// The base of the word positional system, 2^64.
pub open spec fn word_base() -> nat {
    pow2(64)
}

/// The word digits of a buffer, as mathematical naturals.
pub open spec fn nat_seq_u64(s: Seq<u64>) -> Seq<nat> {
    Seq::new(s.len(), |i: int| s[i] as nat)
}

/// The byte digits of a byte string, as mathematical naturals.
pub open spec fn nat_seq_u8(s: Seq<u8>) -> Seq<nat> {
    Seq::new(s.len(), |i: int| s[i] as nat)
}

/// Value of a little-endian word buffer.
pub open spec fn words_val(s: Seq<u64>) -> nat {
    le_val(nat_seq_u64(s), word_base())
}

/// Value of a little-endian byte string.
pub open spec fn bytes_val(s: Seq<u8>) -> nat {
    le_val(nat_seq_u8(s), 256)
}

/// Value of a big-endian byte string.
pub open spec fn bytes_be_val(s: Seq<u8>) -> nat {
    msb_val(nat_seq_u8(s), 256)
}

/// `pow2(64)` is one more than `u64::MAX`.
pub proof fn lemma_word_base_value()
    ensures
        word_base() == 0x10000000000000000,
{
    lemma2_to64();
}

/// `2^(8k) == 256^k`: bytes digits versus bits.
pub proof fn lemma_pow256_pow2(k: nat)
    ensures
        pow(256, k) == pow2(8 * k),
{
    lemma_pow2(8);
    lemma2_to64();
    assert(pow(2, 8) == 256);
    lemma_pow_multiplies(2, 8, k);
    lemma_pow2((8 * k) as nat);
}

/// `pow2(64)^k == 2^(64k)`: word digits versus bits.
pub proof fn lemma_pow_word_base(k: nat)
    ensures
        pow(word_base() as int, k) == pow2(64 * k),
{
    lemma_pow2(64);
    lemma_pow_multiplies(2, 64, k);
    lemma_pow2((64 * k) as nat);
}

/// 2^b as a word, for b < 64.
pub fn pow2_word(b: u64) -> (r: u64)
    requires
        b < 64,
    ensures
        r as nat == pow2(b as nat),
{
    proof {
        lemma2_to64();
    }
    let mut r: u64 = 1;
    let mut i: u64 = 0;
    while i < b
        invariant
            i <= b,
            b < 64,
            r as nat == pow2(i as nat),
        decreases b - i,
    {
        proof {
            lemma_pow2_adds(i as nat, 1);
            lemma2_to64();
            lemma_pow2_strictly_increases(i as nat + 1, 64);
        }
        r = r * 2;
        i = i + 1;
    }
    r
}

/// 2^b as a double word, for b < 128.
pub fn pow2_dword(b: u64) -> (r: u128)
    requires
        b < 128,
    ensures
        r as nat == pow2(b as nat),
{
    proof {
        lemma2_to64();
    }
    let mut r: u128 = 1;
    let mut i: u64 = 0;
    while i < b
        invariant
            i <= b,
            b < 128,
            r as nat == pow2(i as nat),
        decreases b - i,
    {
        proof {
            lemma_pow2_adds(i as nat, 1);
            lemma_pow2_adds(64, 64);
            lemma2_to64();
            assert(pow2(128) == 0x100000000000000000000000000000000);
            lemma_pow2_strictly_increases(i as nat + 1, 128);
        }
        r = r * 2;
        i = i + 1;
    }
    r
}

/// Number of significant bits of a word: `bit_len(0) == 0`, and otherwise
/// `2^(r-1) <= w < 2^r`.
pub fn bit_len(w: u64) -> (r: u32)
    ensures
        r <= 64,
        (w as nat) < pow2(r as nat),
        r > 0 ==> pow2((r - 1) as nat) <= w as nat,
        (r == 0) == (w == 0),
{
    let mut x: u64 = w;
    let mut n: u32 = 0;
    proof {
        lemma2_to64();
        assert(pow2(0) == 1);
    }
    while x > 0
        invariant
            n <= 64,
            x as nat == w as nat / pow2(n as nat),
            n > 0 ==> pow2((n - 1) as nat) <= w as nat,
        decreases x,
    {
        proof {
            lemma_pow2_pos(n as nat);
            // x >= 1 means w >= pow2(n)
            lemma_remainder_lower(w as int, pow2(n as nat) as int);
            lemma_fundamental_div_mod(w as int, pow2(n as nat) as int);
            lemma_mul_inequality(1, x as int, pow2(n as nat) as int);
            assert(w as nat >= pow2(n as nat));
            // therefore n < 64, since w < 2^64
            lemma2_to64();
            if n >= 64 {
                lemma_pow2_strictly_increases(64, n as nat);
                assert(false);
            }
            // w / 2^n / 2 == w / 2^(n+1)
            lemma_div_denominator(w as int, pow2(n as nat) as int, 2);
            lemma_pow2_adds(n as nat, 1);
        }
        x = x / 2;
        n = n + 1;
    }
    proof {
        let p = pow2(n as nat) as int;
        lemma_pow2_pos(n as nat);
        lemma_fundamental_div_mod(w as int, p);
        vstd::arithmetic::div_mod::lemma_mod_bound(w as int, p);
        assert(w as int / p == 0);
        assert(p * 0 == 0);
        assert(w as int == w as int % p);
        assert((w as nat) < pow2(n as nat));
        if n > 0 {
            lemma_pow2_pos((n - 1) as nat);
        }
        if n == 0 {
            lemma2_to64();
            assert(pow2(0) == 1);
            assert(w == 0);
        }
    }
    n
}

/// Count of leading zero bits of a word.
pub fn leading_zeros_word(w: u64) -> (r: u32)
    ensures
        r <= 64,
        (w as nat) < pow2((64 - r) as nat),
        r < 64 ==> pow2((64 - r - 1) as nat) <= w as nat,
        (r == 64) == (w == 0),
{
    let n = bit_len(w);
    64 - n
}

/// Split a double word into its low and high words.
pub fn split_dword(d: u128) -> (r: (u64, u64))
    ensures
        d as nat == r.0 as nat + word_base() * r.1 as nat,
        r.1 as nat == d as nat / word_base(),
        r.0 as nat == d as nat % word_base(),
{
    proof {
        lemma_word_base_value();
    }
    let lo = (d % 0x10000000000000000) as u64;
    let hi = (d / 0x10000000000000000) as u64;
    proof {
        lemma_fundamental_div_mod(d as int, 0x10000000000000000);
    }
    (lo, hi)
}

/// Decode up to a word's worth of little-endian bytes.
pub fn word_from_le_bytes_partial(bytes: &[u8]) -> (r: u64)
    requires
        bytes@.len() <= 8,
    ensures
        r as nat == bytes_val(bytes@),
{
    let n = bytes.len();
    let mut acc: u64 = 0;
    let mut i: usize = n;
    proof {
        assert(bytes@.skip(n as int) =~= Seq::<u8>::empty());
        assert(nat_seq_u8(bytes@).skip(n as int) =~= nat_seq_u8(bytes@.skip(n as int)));
        assert(le_val(Seq::<nat>::empty(), 256) == 0);
        assert(nat_seq_u8(Seq::<u8>::empty()) =~= Seq::<nat>::empty());
    }
    while i > 0
        invariant
            i <= n,
            n == bytes@.len() <= 8,
            acc as nat == le_val(nat_seq_u8(bytes@).skip(i as int), 256),
        decreases i,
    {
        let ghost s = nat_seq_u8(bytes@);
        let ghost iprev = i as int;
        i = i - 1;
        proof {
            lemma_le_val_skip_step(s, i as int, 256);
            // bound: the value of a suffix of at most 8 bytes fits a word
            let t = s.skip(i as int);
            assert(all_below(t, 256)) by {
                assert(forall|j: int| 0 <= j < t.len() ==> t[j] == s[i as int + j]);
            }
            lemma_le_val_bound(t, 256);
            lemma_pow256_pow2(t.len());
            crate::math::lemma_pow_le(2, (8 * t.len()) as nat, 64);
            lemma_pow2((8 * t.len()) as nat);
            lemma_pow2(64);
            lemma2_to64();
            assert(le_val(t, 256) < pow2(64));
            assert(acc as nat == le_val(s.skip(iprev), 256));
            assert(le_val(t, 256) == s[i as int] + 256 * (acc as nat));
            assert(s[i as int] + 256 * (acc as nat) < pow2(64));
        }
        acc = acc * 256 + bytes[i] as u64;
    }
    proof {
        assert(bytes@.skip(0) =~= bytes@);
        assert(nat_seq_u8(bytes@).skip(0) =~= nat_seq_u8(bytes@));
    }
    acc
}

/// Decode up to a word's worth of big-endian bytes.
pub fn word_from_be_bytes_partial(bytes: &[u8]) -> (r: u64)
    requires
        bytes@.len() <= 8,
    ensures
        r as nat == bytes_be_val(bytes@),
{
    let n = bytes.len();
    let mut acc: u64 = 0;
    let mut i: usize = 0;
    proof {
        let s = nat_seq_u8(bytes@);
        assert(s.take(0) =~= Seq::<nat>::empty());
        assert(msb_val(Seq::<nat>::empty(), 256) == 0);
    }
    while i < n
        invariant
            i <= n,
            n == bytes@.len() <= 8,
            acc as nat == msb_val(nat_seq_u8(bytes@).take(i as int), 256),
        decreases n - i,
    {
        let ghost s = nat_seq_u8(bytes@);
        proof {
            lemma_msb_val_take_succ(s, i as int, 256);
            let t = s.take(i as int + 1);
            assert(all_below(t, 256)) by {
                assert(forall|j: int| 0 <= j < t.len() ==> t[j] == s[j]);
            }
            lemma_msb_val_bound(t, 256);
            lemma_pow256_pow2(t.len());
            crate::math::lemma_pow_le(2, (8 * t.len()) as nat, 64);
            lemma_pow2((8 * t.len()) as nat);
            lemma_pow2(64);
            lemma2_to64();
            assert(msb_val(t, 256) < pow2(64));
            assert(msb_val(t, 256) == msb_val(s.take(i as int), 256) * 256 + s[i as int]);
            assert((acc as nat) * 256 + s[i as int] < pow2(64));
        }
        acc = acc * 256 + bytes[i] as u64;
        i = i + 1;
    }
    proof {
        assert(nat_seq_u8(bytes@).take(n as int) =~= nat_seq_u8(bytes@));
    }
    acc
}

/// Encode a word as exactly eight little-endian bytes.
pub fn word_to_le_bytes(w: u64) -> (r: Vec<u8>)
    ensures
        r@.len() == 8,
        bytes_val(r@) == w as nat,
{
    let mut out: Vec<u8> = Vec::new();
    let mut x: u64 = w;
    let mut i: usize = 0;
    proof {
        assert(nat_seq_u8(out@) =~= Seq::<nat>::empty());
        assert(le_val(Seq::<nat>::empty(), 256) == 0);
        assert(bytes_val(out@) == 0);
        lemma2_to64();
        assert(pow2(0) == 1);
        assert(w as nat == bytes_val(out@) + pow2(0) * (x as nat));
    }
    while i < 8
        invariant
            i <= 8,
            out@.len() == i,
            w as nat == bytes_val(out@) + pow2((8 * i) as nat) * x as nat,
        decreases 8 - i,
    {
        let b = (x % 256) as u8;
        let ghost prev = out@;
        let ghost xprev = x as nat;
        out.push(b);
        x = x / 256;
        i = i + 1;
        proof {
            assert(nat_seq_u8(prev.push(b)) =~= nat_seq_u8(prev).push(b as nat));
            crate::math::lemma_le_val_push(nat_seq_u8(prev), b as nat, 256);
            lemma_pow256_pow2(prev.len());
            lemma_fundamental_div_mod(xprev as int, 256);
            // w == bytes_val(prev) + 2^(8(i-1)) * (256*(x) + b)
            //   == bytes_val(prev) + 2^(8(i-1))*b + 2^(8i)*x
            let p = pow2((8 * (i - 1)) as nat) as int;
            assert(p * (256 * (x as int) + b as int) == p * b as int + (p * 256) * x as int)
                by (nonlinear_arith);
            lemma_pow2_adds((8 * (i - 1)) as nat, 8);
            lemma2_to64();
            assert(pow2(8) == 256);
        }
    }
    proof {
        lemma2_to64();
        lemma_pow2_pos(64);
        if x > 0 {
            lemma_mul_inequality(1, x as int, pow2(64) as int);
            vstd::arithmetic::mul::lemma_mul_is_commutative(pow2(64) as int, x as int);
            assert(false);
        }
        assert(pow2(64) * (x as nat) == 0);
    }
    out
}


/// The value of an empty buffer is zero.
pub proof fn lemma_words_val_empty()
    ensures
        words_val(Seq::<u64>::empty()) == 0,
{
    assert(nat_seq_u64(Seq::<u64>::empty()) =~= Seq::<nat>::empty());
    assert(le_val(Seq::<nat>::empty(), word_base()) == 0);
}

/// The value of a one-word buffer is that word.
pub proof fn lemma_words_val_singleton(w: u64)
    ensures
        words_val(seq![w]) == w as nat,
{
    let s = seq![w];
    let u = nat_seq_u64(s);
    assert(u.len() == 1);
    assert(u[0] == w as nat);
    assert(u.drop_first() =~= Seq::<nat>::empty());
    assert(le_val(Seq::<nat>::empty(), word_base()) == 0);
    assert(le_val(u, word_base()) == u[0] + word_base() * le_val(u.drop_first(), word_base()));
}

/// Appending a word on top adds `w * 2^(64 len)`.
pub proof fn lemma_words_val_push(s: Seq<u64>, w: u64)
    ensures
        words_val(s.push(w)) == words_val(s) + pow2(64 * s.len()) * w as nat,
{
    assert(nat_seq_u64(s.push(w)) =~= nat_seq_u64(s).push(w as nat));
    crate::math::lemma_le_val_push(nat_seq_u64(s), w as nat, word_base());
    lemma_pow_word_base(s.len());
}

/// One more word of a prefix adds `s[i] * 2^(64 i)`.
pub proof fn lemma_words_val_take_succ(s: Seq<u64>, i: int)
    requires
        0 <= i < s.len(),
    ensures
        words_val(s.take(i + 1)) == words_val(s.take(i)) + pow2((64 * i) as nat) * s[i] as nat,
{
    assert(s.take(i + 1) =~= s.take(i).push(s[i]));
    lemma_words_val_push(s.take(i), s[i]);
}

/// A buffer of `len` words is below `2^(64 len)`.
pub proof fn lemma_words_val_bound(s: Seq<u64>)
    ensures
        words_val(s) < pow2(64 * s.len()),
{
    let u = nat_seq_u64(s);
    assert(all_below(u, word_base())) by {
        lemma2_to64();
    }
    lemma_pow2_pos(64);
    lemma_le_val_bound(u, word_base());
    lemma_pow_word_base(s.len());
}

/// Splitting a buffer at position `i`.
pub proof fn lemma_words_val_split(s: Seq<u64>, i: int)
    requires
        0 <= i <= s.len(),
    ensures
        words_val(s) == words_val(s.take(i)) + pow2((64 * i) as nat) * words_val(s.skip(i)),
{
    assert(nat_seq_u64(s).take(i) =~= nat_seq_u64(s.take(i)));
    assert(nat_seq_u64(s).skip(i) =~= nat_seq_u64(s.skip(i)));
    crate::math::lemma_le_val_split(nat_seq_u64(s), i, word_base());
    lemma_pow_word_base(i as nat);
}

/// Peeling the bottom word of a suffix.
pub proof fn lemma_words_val_skip_step(s: Seq<u64>, i: int)
    requires
        0 <= i < s.len(),
    ensures
        words_val(s.skip(i)) == s[i] as nat + word_base() * words_val(s.skip(i + 1)),
{
    assert(nat_seq_u64(s).skip(i) =~= nat_seq_u64(s.skip(i)));
    assert(nat_seq_u64(s).skip(i + 1) =~= nat_seq_u64(s.skip(i + 1)));
    lemma_le_val_skip_step(nat_seq_u64(s), i, word_base());
}

/// A buffer with a nonzero top word is at least `2^(64 (len-1))`.
pub proof fn lemma_words_val_top_nonzero(s: Seq<u64>)
    requires
        s.len() > 0,
        s.last() != 0,
    ensures
        words_val(s) >= pow2((64 * (s.len() - 1)) as nat),
{
    let u = nat_seq_u64(s);
    lemma_pow2_pos(64);
    crate::math::lemma_le_val_top_nonzero(u, word_base());
    lemma_pow_word_base((s.len() - 1) as nat);
}

/// Words above position `i` all zero: the buffer has the value of its prefix.
pub proof fn lemma_words_val_zeros_above(s: Seq<u64>, i: int)
    requires
        0 <= i <= s.len(),
        forall|j: int| i <= j < s.len() ==> s[j] == 0,
    ensures
        words_val(s) == words_val(s.take(i)),
{
    lemma_words_val_split(s, i);
    let u = nat_seq_u64(s.skip(i));
    crate::math::lemma_le_val_zeros(u, word_base()) ;
    assert(words_val(s.skip(i)) == 0);
    assert(pow2((64 * i) as nat) * 0 == 0);
}

/// Word-by-word comparison from the top decides the order of values: if two
/// equal-length buffers agree above position `k` and differ there, the one
/// with the smaller word at `k` has the smaller value.
pub proof fn lemma_words_val_cmp(s: Seq<u64>, t: Seq<u64>, k: int)
    requires
        s.len() == t.len(),
        0 <= k < s.len(),
        forall|j: int| k < j < s.len() ==> s[j] == t[j],
        s[k] < t[k],
    ensures
        words_val(s) < words_val(t),
{
    lemma_words_val_split(s, k);
    lemma_words_val_split(t, k);
    let p = pow2((64 * k) as nat) as int;
    lemma_pow2_pos((64 * k) as nat);
    lemma_words_val_skip_step(s, k);
    lemma_words_val_skip_step(t, k);
    assert(s.skip(k + 1) =~= t.skip(k + 1));
    let x = words_val(s.skip(k)) as int;
    let y = words_val(t.skip(k)) as int;
    assert(x + 1 <= y);
    // low part of s is below p
    lemma_words_val_bound(s.take(k));
    lemma_pow_word_base(k as nat);
    assert(s.take(k).len() == k);
    assert(words_val(s.take(k)) < pow2((64 * k) as nat));
    // val(s) < val(s.take(k)) + p * (x + 1) <= p * y <= val(t)
    lemma_mul_inequality(x + 1, y, p);
    vstd::arithmetic::mul::lemma_mul_is_distributive_add(p, x, 1);
    vstd::arithmetic::mul::lemma_mul_is_commutative(p, x + 1);
    vstd::arithmetic::mul::lemma_mul_is_commutative(p, y);
    assert(p * x + p > (words_val(s.take(k)) + p * x) as int);
}


/// Monotonicity of `pow2`.
pub proof fn lemma_pow2_le_connect(e1: nat, e2: nat)
    requires
        e1 <= e2,
    ensures
        pow2(e1) <= pow2(e2),
{
    if e1 < e2 {
        lemma_pow2_strictly_increases(e1, e2);
    }
}

/// Two canonical buffers (nonzero top word) with the same value hold the
/// same words.
pub proof fn lemma_words_val_canonical_unique(s: Seq<u64>, t: Seq<u64>)
    requires
        s.len() > 0 ==> s.last() != 0,
        t.len() > 0 ==> t.last() != 0,
        words_val(s) == words_val(t),
    ensures
        s == t,
{
    let u = nat_seq_u64(s);
    let v = nat_seq_u64(t);
    lemma2_to64();
    assert(all_below(u, word_base()));
    assert(all_below(v, word_base()));
    assert(s.len() > 0 ==> u.last() == s.last() as nat);
    assert(t.len() > 0 ==> v.last() == t.last() as nat);
    crate::math::lemma_le_val_canonical_unique(u, v, word_base());
    assert(s =~= t) by {
        assert(forall|i: int| 0 <= i < s.len() ==> u[i] == v[i]);
        assert(forall|i: int| 0 <= i < s.len() ==> s[i] == t[i]) by {
            assert(forall|i: int| 0 <= i < s.len() ==> s[i] as nat == u[i] && t[i] as nat == v[i]);
        }
    }
}

/// The step identity of carry loops: a digit at position `i` plus a carry at
/// position `i+1` amount to `p * (lo + B*hi)` with `p = 2^(64 i)`.
pub proof fn lemma_carry_step(i: nat, lo: nat, hi: nat)
    ensures
        pow2(64 * i) * lo + pow2(64 * (i + 1)) * hi == pow2(64 * i) * (lo + word_base() * hi),
{
    let p = pow2(64 * i) as int;
    let b = word_base() as int;
    assert(64 * (i + 1) == 64 * i + 64) by (nonlinear_arith);
    lemma_pow2_adds(64 * i, 64);
    assert(pow2(64 * (i + 1)) == p * b);
    vstd::arithmetic::mul::lemma_mul_is_distributive_add(p, lo as int, b * hi);
    vstd::arithmetic::mul::lemma_mul_is_associative(p, b, hi as int);
}

/// `p * (x + y + z) == p*x + p*y + p*z`.
pub proof fn lemma_mul_three(p: int, x: int, y: int, z: int)
    ensures
        p * (x + y + z) == p * x + p * y + p * z,
{
    vstd::arithmetic::mul::lemma_mul_is_distributive_add(p, x + y, z);
    vstd::arithmetic::mul::lemma_mul_is_distributive_add(p, x, y);
}

/// `p * (x + y) == p*x + p*y`.
pub proof fn lemma_mul_two(p: int, x: int, y: int)
    ensures
        p * (x + y) == p * x + p * y,
{
    vstd::arithmetic::mul::lemma_mul_is_distributive_add(p, x, y);
}

/// Strict product bound.
pub proof fn lemma_mul_bound(x: nat, p: nat, y: nat, q: nat)
    requires
        x < p,
        y < q,
    ensures
        x * y < p * q,
{
    assert(x * y < p * q) by (nonlinear_arith)
        requires x < p && y < q && 0 <= x && 0 <= y;
}

/// Prepending a zero word multiplies the value by the base.
pub proof fn lemma_words_val_prepend_zero(s: Seq<u64>)
    ensures
        words_val(s.insert(0, 0u64)) == word_base() * words_val(s),
{
    let t = s.insert(0, 0u64);
    let u = nat_seq_u64(t);
    assert(t[0] == 0);
    assert(u[0] == 0);
    assert(u.drop_first() =~= nat_seq_u64(s));
    assert(le_val(u, word_base()) == u[0] + word_base() * le_val(u.drop_first(), word_base()));
}

/// Product of values bounded by word counts stays within the summed count.
pub proof fn lemma_prod_fits(x: nat, y: nat, kx: nat, ky: nat)
    requires
        x < pow2(64 * kx),
        y < pow2(64 * ky),
    ensures
        x * y < pow2(64 * (kx + ky)),
{
    lemma_mul_bound(x, pow2(64 * kx), y, pow2(64 * ky));
    lemma_pow2_adds(64 * kx, 64 * ky);
    assert(64 * kx + 64 * ky == 64 * (kx + ky));
}
} // verus!
