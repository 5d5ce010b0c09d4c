//! Positional number systems in specification land.
//!
//! A magnitude is a sequence of digits in some base: machine words in base
//! 2^64, bytes in base 256, or digits of a radix between 2 and 36.  The spec
//! functions here give such sequences their numeric value, both for
//! little-endian sequences (least significant digit first, used for word
//! buffers and byte strings) and for most-significant-first sequences (used
//! for digit strings), together with the lemmas the arithmetic kernels need.

use vstd::prelude::*;
use vstd::arithmetic::power::pow;
use vstd::arithmetic::power::lemma_pow_adds;
use vstd::arithmetic::power::lemma_pow_positive;
use vstd::arithmetic::power::lemma_pow0;
use vstd::arithmetic::power::lemma_pow1;
use vstd::arithmetic::mul::lemma_mul_inequality;
use vstd::arithmetic::mul::lemma_mul_is_distributive_add;
use vstd::arithmetic::mul::lemma_mul_is_associative;
use vstd::arithmetic::div_mod::lemma_fundamental_div_mod;
use vstd::arithmetic::div_mod::lemma_fundamental_div_mod_converse;
use vstd::arithmetic::div_mod::lemma_mod_bound;

verus! {

/// Value of a little-endian digit sequence: `s[0] + b*s[1] + b^2*s[2] + ...`.
pub open spec fn le_val(s: Seq<nat>, b: nat) -> nat
    decreases s.len(),
{
    if s.len() == 0 {
        0
    } else {
        s[0] + b * le_val(s.drop_first(), b)
    }
}

/// Value of a most-significant-first digit sequence:
/// `s[len-1] + b*s[len-2] + ...`.
pub open spec fn msb_val(s: Seq<nat>, b: nat) -> nat
    decreases s.len(),
{
    if s.len() == 0 {
        0
    } else {
        b * msb_val(s.drop_last(), b) + s.last()
    }
}

/// The canonical most-significant-first digit sequence of `n` in base `b`:
/// nonempty, no leading zero except for the single digit of zero itself.
pub open spec fn msb_digits(n: nat, b: nat) -> Seq<nat>
    decreases n,
    via msb_digits_decreases
{
    if b < 2 {
        Seq::empty()
    } else if n < b {
        seq![n]
    } else {
        msb_digits(n / b, b).push(n % b)
    }
}

#[via_fn]
proof fn msb_digits_decreases(n: nat, b: nat) {
    if b >= 2 && n >= b {
        vstd::arithmetic::div_mod::lemma_div_decreases(n as int, b as int);
    }
}

/// All entries of `s` are below `b`.
pub open spec fn all_below(s: Seq<nat>, b: nat) -> bool {
    forall|i: int| 0 <= i < s.len() ==> s[i] < b
}

pub proof fn lemma_le_val_bound(s: Seq<nat>, b: nat)
    requires
        b >= 1,
        all_below(s, b),
    ensures
        le_val(s, b) < pow(b as int, s.len()),
    decreases s.len(),
{
    lemma_pow_positive(b as int, s.len());
    if s.len() == 0 {
        lemma_pow0(b as int);
    } else {
        let t = s.drop_first();
        assert(all_below(t, b)) by {
            assert(forall|i: int| 0 <= i < t.len() ==> t[i] == s[i + 1]);
        }
        lemma_le_val_bound(t, b);
        lemma_pow_positive(b as int, t.len());
        // le_val(s) = s[0] + b * le_val(t) <= (b-1) + b * (pow(b, len-1) - 1)
        lemma_mul_inequality(le_val(t, b) as int + 1, pow(b as int, t.len()), b as int);
        assert(pow(b as int, s.len()) == b * pow(b as int, t.len())) by {
            lemma_pow_adds(b as int, 1, t.len());
            lemma_pow1(b as int);
        }
        lemma_mul_is_distributive_add(b as int, le_val(t, b) as int, 1);
    }
}

pub proof fn lemma_le_val_append(s: Seq<nat>, t: Seq<nat>, b: nat)
    ensures
        le_val(s + t, b) == le_val(s, b) + pow(b as int, s.len()) * le_val(t, b),
    decreases s.len(),
{
    if s.len() == 0 {
        assert(s + t =~= t);
        lemma_pow0(b as int);
    } else {
        let u = s + t;
        assert(u.drop_first() =~= s.drop_first() + t);
        lemma_le_val_append(s.drop_first(), t, b);
        // le_val(u) == s[0] + b * (le_val(s') + pow(b, len-1) * le_val(t))
        let p1 = pow(b as int, (s.len() - 1) as nat);
        lemma_mul_is_distributive_add(b as int, le_val(s.drop_first(), b) as int, p1 * le_val(t, b));
        lemma_mul_is_associative(b as int, p1, le_val(t, b) as int);
        assert(pow(b as int, s.len()) == b * p1) by {
            lemma_pow_adds(b as int, 1, (s.len() - 1) as nat);
            lemma_pow1(b as int);
        }
    }
}

pub proof fn lemma_le_val_push(s: Seq<nat>, x: nat, b: nat)
    ensures
        le_val(s.push(x), b) == le_val(s, b) + pow(b as int, s.len()) * x,
    decreases s.len(),
{
    let u = seq![x];
    assert(u.len() == 1);
    assert(u[0] == x);
    assert(u.drop_first() =~= Seq::<nat>::empty());
    assert(le_val(Seq::<nat>::empty(), b) == 0);
    assert(le_val(u, b) == u[0] + b * le_val(u.drop_first(), b));
    assert(le_val(u, b) == x);
    assert(s.push(x) =~= s + u);
    lemma_le_val_append(s, u, b);
}

/// Splitting a little-endian sequence at position `i`.
pub proof fn lemma_le_val_split(s: Seq<nat>, i: int, b: nat)
    requires
        0 <= i <= s.len(),
    ensures
        le_val(s, b) == le_val(s.take(i), b) + pow(b as int, i as nat) * le_val(s.skip(i), b),
{
    assert(s =~= s.take(i) + s.skip(i));
    lemma_le_val_append(s.take(i), s.skip(i), b);
}

/// A little-endian sequence whose top digit is nonzero is at least `b^(len-1)`.
pub proof fn lemma_le_val_top_nonzero(s: Seq<nat>, b: nat)
    requires
        b >= 1,
        s.len() > 0,
        s.last() >= 1,
    ensures
        le_val(s, b) >= pow(b as int, (s.len() - 1) as nat),
{
    let i: nat = (s.len() - 1) as nat;
    lemma_le_val_split(s, i as int, b);
    let u = seq![s.last()];
    assert(u.len() == 1);
    assert(u[0] == s.last());
    assert(u.drop_first() =~= Seq::<nat>::empty());
    assert(le_val(Seq::<nat>::empty(), b) == 0);
    assert(le_val(u, b) == u[0] + b * le_val(u.drop_first(), b));
    assert(le_val(u, b) == s.last());
    assert(s.skip(i as int) =~= u);
    assert(le_val(s.skip(i as int), b) == s.last());
    lemma_pow_positive(b as int, i);
    lemma_mul_inequality(1, s.last() as int, pow(b as int, i));
    assert(le_val(s, b) == le_val(s.take(i as int), b) + pow(b as int, i) * s.last());
    assert(pow(b as int, i) * s.last() == s.last() * pow(b as int, i));
    assert(le_val(s, b) >= pow(b as int, i));
}

/// A little-endian sequence of zeros has value zero.
pub proof fn lemma_le_val_zeros(s: Seq<nat>, b: nat)
    requires
        forall|i: int| 0 <= i < s.len() ==> s[i] == 0,
    ensures
        le_val(s, b) == 0,
    decreases s.len(),
{
    if s.len() == 0 {
        assert(le_val(s, b) == 0);
    } else {
        lemma_le_val_zeros(s.drop_first(), b);
        assert(le_val(s, b) == s[0] + b * le_val(s.drop_first(), b));
    }
}

pub proof fn lemma_msb_val_bound(s: Seq<nat>, b: nat)
    requires
        b >= 1,
        all_below(s, b),
    ensures
        msb_val(s, b) < pow(b as int, s.len()),
    decreases s.len(),
{
    lemma_pow_positive(b as int, s.len());
    if s.len() == 0 {
        lemma_pow0(b as int);
    } else {
        let t = s.drop_last();
        lemma_msb_val_bound(t, b);
        lemma_mul_inequality(msb_val(t, b) as int + 1, pow(b as int, t.len()), b as int);
        assert(pow(b as int, s.len()) == b * pow(b as int, t.len())) by {
            lemma_pow_adds(b as int, 1, t.len());
            lemma_pow1(b as int);
        }
        lemma_mul_is_distributive_add(b as int, msb_val(t, b) as int, 1);
    }
}

pub proof fn lemma_msb_val_append(s: Seq<nat>, t: Seq<nat>, b: nat)
    ensures
        msb_val(s + t, b) == msb_val(s, b) * pow(b as int, t.len()) + msb_val(t, b),
    decreases t.len(),
{
    if t.len() == 0 {
        assert(s + t =~= s);
        lemma_pow1(b as int);
        lemma_pow0(b as int);
    } else {
        let u = s + t;
        assert(u.drop_last() =~= s + t.drop_last());
        assert(u.last() == t.last());
        lemma_msb_val_append(s, t.drop_last(), b);
        let v = msb_val(s, b) as int;
        let p1 = pow(b as int, (t.len() - 1) as nat);
        // msb_val(u) == b * (v * p1 + msb_val(t')) + t.last()
        lemma_mul_is_distributive_add(b as int, v * p1, msb_val(t.drop_last(), b) as int);
        lemma_mul_is_associative(b as int, v, p1);
        lemma_mul_is_associative(v, b as int, p1);
        assert(pow(b as int, t.len()) == b * p1) by {
            lemma_pow_adds(b as int, 1, (t.len() - 1) as nat);
            lemma_pow1(b as int);
        }
    }
}

pub proof fn lemma_msb_val_push(s: Seq<nat>, x: nat, b: nat)
    ensures
        msb_val(s.push(x), b) == msb_val(s, b) * b + x,
{
    let t = s.push(x);
    assert(t.drop_last() =~= s);
    assert(t.last() == x);
    assert(msb_val(t, b) == b * msb_val(t.drop_last(), b) + t.last());
    assert(msb_val(t.drop_last(), b) == msb_val(s, b));
    vstd::arithmetic::mul::lemma_mul_is_commutative(b as int, msb_val(s, b) as int);
    assert(msb_val(t, b) == msb_val(s, b) * b + x);
}

/// The canonical digit sequence of `n` indeed has value `n`, digits below `b`,
/// and no leading zero unless `n` itself is zero.
pub proof fn lemma_msb_digits_correct(n: nat, b: nat)
    requires
        b >= 2,
    ensures
        msb_val(msb_digits(n, b), b) == n,
        all_below(msb_digits(n, b), b),
        msb_digits(n, b).len() >= 1,
        n > 0 ==> msb_digits(n, b)[0] >= 1,
        n < b ==> msb_digits(n, b) =~= seq![n],
    decreases n,
{
    if n < b {
        let d = msb_digits(n, b);
        let u = seq![n];
        assert(u.len() == 1);
        assert(u[0] == n);
        assert(d.len() == 1);
        assert(d[0] == n);
        assert(d =~= u);
        assert(d.drop_last() =~= Seq::<nat>::empty());
        assert(msb_val(Seq::<nat>::empty(), b) == 0);
        assert(d.last() == n);
        assert(msb_val(d, b) == b * msb_val(d.drop_last(), b) + d.last());
        assert(msb_val(d, b) == n);
    } else {
        let q = n / b;
        let r = n % b;
        lemma_fundamental_div_mod(n as int, b as int);
        lemma_mod_bound(n as int, b as int);
        assert(q >= 1) by (nonlinear_arith)
            requires n >= b && b >= 2 && n == q * b + r && r < b;
        assert(q < n) by (nonlinear_arith)
            requires n >= b && b >= 2 && n == q * b + r && 0 <= r;
        lemma_msb_digits_correct(q, b);
        lemma_msb_val_push(msb_digits(q, b), r, b);
    }
}

/// Uniqueness: a digit sequence with no leading zero is the canonical one.
pub proof fn lemma_msb_digits_unique(s: Seq<nat>, b: nat)
    requires
        b >= 2,
        s.len() >= 1,
        all_below(s, b),
        s.len() > 1 ==> s[0] >= 1,
    ensures
        s =~= msb_digits(msb_val(s, b), b),
    decreases s.len(),
{
    let n = msb_val(s, b);
    if s.len() == 1 {
        assert(s.drop_last() =~= Seq::<nat>::empty());
        assert(msb_val(Seq::<nat>::empty(), b) == 0);
        assert(msb_val(s, b) == b * msb_val(s.drop_last(), b) + s.last());
        assert(n == s[0]);
    } else {
        let t = s.drop_last();
        let m = msb_val(t, b);
        assert(msb_val(s, b) == b * msb_val(s.drop_last(), b) + s.last());
        vstd::arithmetic::mul::lemma_mul_is_commutative(b as int, m as int);
        assert(n == m * b + s.last());
        assert(t.len() >= 1 && t[0] == s[0] >= 1);
        assert(m >= 1) by {
            // a nonempty msb sequence with nonzero first digit is positive
            lemma_msb_val_first_digit_lower(t, b);
            lemma_pow_positive(b as int, (t.len() - 1) as nat);
            lemma_mul_inequality(1, t[0] as int, pow(b as int, (t.len() - 1) as nat));
        }
        assert(n >= b) by (nonlinear_arith)
            requires m >= 1 && b >= 2 && n == m * b + s.last() && s.last() >= 0;
        assert(n / b == m && n % b == s.last()) by {
            lemma_fundamental_div_mod_converse(n as int, b as int, m as int, s.last() as int);
        }
        lemma_msb_digits_unique(t, b);
        assert(msb_digits(n, b) == msb_digits(m, b).push(n % b));
        assert(s =~= t.push(s.last()));
    }
}

/// A nonempty msb sequence is at least `first_digit * b^(len-1)`.
pub proof fn lemma_msb_val_first_digit_lower(s: Seq<nat>, b: nat)
    requires
        b >= 1,
        s.len() >= 1,
    ensures
        msb_val(s, b) >= s[0] * pow(b as int, (s.len() - 1) as nat),
    decreases s.len(),
{
    if s.len() == 1 {
        lemma_pow0(b as int);
        assert(s.drop_last() =~= Seq::<nat>::empty());
        assert(msb_val(Seq::<nat>::empty(), b) == 0);
        assert(msb_val(s, b) == b * msb_val(s.drop_last(), b) + s.last());
        assert(s[0] * 1 == s[0]) by (nonlinear_arith);
    } else {
        let t = s.drop_last();
        lemma_msb_val_first_digit_lower(t, b);
        let p1 = pow(b as int, (t.len() - 1) as nat);
        lemma_pow_positive(b as int, (t.len() - 1) as nat);
        assert(msb_val(s, b) == b * msb_val(t, b) + s.last());
        lemma_mul_inequality(s[0] * p1, msb_val(t, b) as int, b as int);
        lemma_mul_is_associative(s[0] as int, p1, b as int);
        assert(pow(b as int, (s.len() - 1) as nat) == p1 * b) by {
            lemma_pow_adds(b as int, (t.len() - 1) as nat, 1);
            lemma_pow1(b as int);
        }
    }
}

/// `b^e1 <= b^e2` when `e1 <= e2`.
pub proof fn lemma_pow_le(b: nat, e1: nat, e2: nat)
    requires
        b >= 1,
        e1 <= e2,
    ensures
        pow(b as int, e1) <= pow(b as int, e2),
{
    vstd::arithmetic::power::lemma_pow_increases(b, e1, e2);
}



/// Peeling one digit off the front of a little-endian suffix.
pub proof fn lemma_le_val_skip_step(s: Seq<nat>, i: int, b: nat)
    requires
        0 <= i < s.len(),
    ensures
        le_val(s.skip(i), b) == s[i] + b * le_val(s.skip(i + 1), b),
{
    let t = s.skip(i);
    assert(t.len() == s.len() - i);
    assert(t[0] == s[i]);
    assert(t.drop_first() =~= s.skip(i + 1));
    assert(le_val(t, b) == t[0] + b * le_val(t.drop_first(), b));
}

/// Extending a most-significant-first prefix by one digit.
pub proof fn lemma_msb_val_take_succ(s: Seq<nat>, i: int, b: nat)
    requires
        0 <= i < s.len(),
    ensures
        msb_val(s.take(i + 1), b) == msb_val(s.take(i), b) * b + s[i],
{
    assert(s.take(i + 1) =~= s.take(i).push(s[i]));
    lemma_msb_val_push(s.take(i), s[i], b);
}


/// A little-endian digit sequence with no zero digits on top is determined by
/// its value: two such sequences with the same value are the same sequence.
pub proof fn lemma_le_val_canonical_unique(s: Seq<nat>, t: Seq<nat>, b: nat)
    requires
        b >= 2,
        all_below(s, b),
        all_below(t, b),
        s.len() > 0 ==> s.last() >= 1,
        t.len() > 0 ==> t.last() >= 1,
        le_val(s, b) == le_val(t, b),
    ensures
        s =~= t,
    decreases s.len(),
{
    lemma_pow1(b as int);
    if s.len() == 0 && t.len() == 0 {
    } else if s.len() == 0 {
        lemma_le_val_top_nonzero(t, b);
        lemma_pow_le(b, 0, (t.len() - 1) as nat);
        lemma_pow0(b as int);
        assert(le_val(s, b) == 0);
        assert(false);
    } else if t.len() == 0 {
        lemma_le_val_top_nonzero(s, b);
        lemma_pow_le(b, 0, (s.len() - 1) as nat);
        lemma_pow0(b as int);
        assert(le_val(t, b) == 0);
        assert(false);
    } else {
        let n = le_val(s, b);
        let sv = le_val(s.drop_first(), b);
        let tv = le_val(t.drop_first(), b);
        assert(n == s[0] + b * sv);
        assert(n == t[0] + b * tv);
        vstd::arithmetic::mul::lemma_mul_is_commutative(b as int, sv as int);
        vstd::arithmetic::mul::lemma_mul_is_commutative(b as int, tv as int);
        lemma_fundamental_div_mod_converse(n as int, b as int, sv as int, s[0] as int);
        lemma_fundamental_div_mod_converse(n as int, b as int, tv as int, t[0] as int);
        assert(s[0] == n % b && t[0] == n % b);
        assert(sv == n / b && tv == n / b);
        let s1 = s.drop_first();
        let t1 = t.drop_first();
        assert(all_below(s1, b)) by {
            assert(forall|i: int| 0 <= i < s1.len() ==> s1[i] == s[i + 1]);
        }
        assert(all_below(t1, b)) by {
            assert(forall|i: int| 0 <= i < t1.len() ==> t1[i] == t[i + 1]);
        }
        assert(s1.len() > 0 ==> s1.last() == s.last());
        assert(t1.len() > 0 ==> t1.last() == t.last());
        lemma_le_val_canonical_unique(s1, t1, b);
        assert(s.len() == t.len());
        assert(forall|i: int| 1 <= i < s.len() ==> s[i] == s1[i - 1] && t[i] == t1[i - 1]);
    }
}

/// Monotonicity of `pow` in the base.
pub proof fn lemma_pow_base_le(b1: nat, b2: nat, e: nat)
    requires
        1 <= b1 <= b2,
    ensures
        pow(b1 as int, e) <= pow(b2 as int, e),
    decreases e,
{
    if e == 0 {
        lemma_pow0(b1 as int);
        lemma_pow0(b2 as int);
    } else {
        lemma_pow_base_le(b1, b2, (e - 1) as nat);
        lemma_pow_positive(b1 as int, (e - 1) as nat);
        lemma_pow_positive(b2 as int, (e - 1) as nat);
        assert(b1 * pow(b1 as int, (e - 1) as nat) <= b2 * pow(b2 as int, (e - 1) as nat))
            by (nonlinear_arith)
            requires
                1 <= b1 <= b2,
                0 < pow(b1 as int, (e - 1) as nat) <= pow(b2 as int, (e - 1) as nat),
        ;
        lemma_pow_adds(b1 as int, (e - 1) as nat, 1);
        lemma_pow_adds(b2 as int, (e - 1) as nat, 1);
        lemma_pow1(b1 as int);
        lemma_pow1(b2 as int);
        vstd::arithmetic::mul::lemma_mul_is_commutative(b1 as int, pow(b1 as int, (e - 1) as nat));
        vstd::arithmetic::mul::lemma_mul_is_commutative(b2 as int, pow(b2 as int, (e - 1) as nat));
    }
}

/// A sequence of `k` zero digits.
pub open spec fn zero_seq(k: nat) -> Seq<nat> {
    Seq::new(k, |i: int| 0nat)
}

/// The canonical digit sequence of `n`, left-padded with zeros to at least
/// `min` digits.
pub open spec fn msb_digits_pad(n: nat, b: nat, min: nat) -> Seq<nat> {
    let d = msb_digits(n, b);
    if d.len() >= min {
        d
    } else {
        zero_seq((min - d.len()) as nat) + d
    }
}

/// An all-zero msb sequence has value zero.
pub proof fn lemma_msb_val_zeros(s: Seq<nat>, b: nat)
    requires
        forall|i: int| 0 <= i < s.len() ==> s[i] == 0,
    ensures
        msb_val(s, b) == 0,
    decreases s.len(),
{
    if s.len() == 0 {
        assert(msb_val(s, b) == 0);
    } else {
        lemma_msb_val_zeros(s.drop_last(), b);
        assert(msb_val(s, b) == b * msb_val(s.drop_last(), b) + s.last());
        assert(b * 0 == 0) by (nonlinear_arith);
    }
}

/// Zeros in front do not change the value of an msb sequence.
pub proof fn lemma_msb_val_front_zeros(k: nat, t: Seq<nat>, b: nat)
    ensures
        msb_val(zero_seq(k) + t, b) == msb_val(t, b),
{
    let z = zero_seq(k);
    lemma_msb_val_append(z, t, b);
    lemma_msb_val_zeros(z, b);
    assert(0 * pow(b as int, t.len()) == 0) by (nonlinear_arith);
}

/// The padded digit sequence: its length, value, digit bounds, and the
/// absence of padding beyond `min`.
pub proof fn lemma_msb_pad_props(n: nat, b: nat, min: nat)
    requires
        b >= 2,
    ensures
        msb_digits_pad(n, b, min).len() == (if msb_digits(n, b).len() >= min {
            msb_digits(n, b).len()
        } else {
            min
        }),
        msb_val(msb_digits_pad(n, b, min), b) == n,
        all_below(msb_digits_pad(n, b, min), b),
        msb_digits_pad(n, b, min).len() > min ==> msb_digits_pad(n, b, min)[0] >= 1 || n < b,
        msb_digits_pad(n, b, min).len() >= 1,
{
    lemma_msb_digits_correct(n, b);
    let d = msb_digits(n, b);
    let p = msb_digits_pad(n, b, min);
    if d.len() >= min {
    } else {
        let z = zero_seq((min - d.len()) as nat);
        lemma_msb_val_front_zeros((min - d.len()) as nat, d, b);
        assert(all_below(p, b)) by {
            assert(forall|i: int|
                0 <= i < p.len() ==> p[i] == (if i < z.len() {
                    0nat
                } else {
                    d[i - z.len()]
                }));
        }
    }
    if p.len() > min && d.len() >= min {
        // no padding: the first digit is the canonical first digit
        if n >= b {
            assert(p[0] == d[0]);
        }
        if d.len() > 1 {
            assert(n >= b) by {
                if n < b {
                    assert(d =~= seq![n]);
                }
            }
        } else {
            assert(n < b || p[0] >= 1) by {
                if d.len() == 1 && n >= b {
                    assert(false) by {
                        lemma_msb_digits_len_ge2(n, b);
                    }
                }
            }
        }
    }
}

/// A value of at least `b` has at least two canonical digits.
proof fn lemma_msb_digits_len_ge2(n: nat, b: nat)
    requires
        b >= 2,
        n >= b,
    ensures
        msb_digits(n, b).len() >= 2,
{
    lemma_msb_digits_correct(n / b, b);
}

/// Uniqueness with padding: a digit sequence of length at least `min`, with
/// a leading zero only inside the padding, is the padded canonical sequence
/// of its value.
pub proof fn lemma_msb_pad_unique(s: Seq<nat>, b: nat, min: nat)
    requires
        b >= 2,
        all_below(s, b),
        s.len() >= min,
        s.len() >= 1,
        s.len() > min ==> s[0] >= 1,
    ensures
        s =~= msb_digits_pad(msb_val(s, b), b, min),
    decreases s.len(),
{
    let n = msb_val(s, b);
    lemma_msb_digits_correct(n, b);
    let d = msb_digits(n, b);
    if s.len() == 1 || s[0] >= 1 {
        lemma_msb_digits_unique(s, b);
        assert(s == msb_digits(n, b));
        assert(d.len() == s.len());
        assert(d.len() >= min);
        assert(s =~= msb_digits_pad(n, b, min));
    } else {
        // a leading zero, so the length equals min and the tail decides
        assert(s.len() == min);
        let t = s.drop_first();
        let u = seq![0nat];
        assert(u.len() == 1);
        assert(u[0] == 0);
        assert(s =~= u + t);
        lemma_msb_val_append(u, t, b);
        assert(msb_val(u, b) == 0) by {
            assert(u.drop_last() =~= Seq::<nat>::empty());
            assert(msb_val(Seq::<nat>::empty(), b) == 0);
            assert(msb_val(u, b) == b * msb_val(u.drop_last(), b) + u.last());
        }
        assert(0 * pow(b as int, t.len()) == 0) by (nonlinear_arith);
        assert(msb_val(t, b) == n);
        assert(all_below(t, b)) by {
            assert(forall|i: int| 0 <= i < t.len() ==> t[i] == s[i + 1]);
        }
        lemma_msb_pad_unique(t, b, (min - 1) as nat);
        // the canonical digits fit within min - 1
        assert(t =~= msb_digits_pad(n, b, (min - 1) as nat));
        assert(d.len() <= min - 1) by {
            if d.len() > min - 1 {
                assert(t =~= d);
                assert(t[0] == s[1]);
                if d.len() > 1 {
                    // t equals d, whose first digit is nonzero only if n >= b;
                    // but then s would not be canonicalizable with s[0] == 0
                    assert(d[0] >= 1);
                    assert(t.len() == min - 1);
                    assert(false);
                } else {
                    assert(t.len() == 1 && min == 2);
                    assert(false);
                }
            }
        }
        assert(s =~= msb_digits_pad(n, b, min));
    }
}

/// Reversal swaps the two digit orders.
pub proof fn lemma_le_val_reverse(s: Seq<nat>, b: nat)
    ensures
        msb_val(s.reverse(), b) == le_val(s, b),
    decreases s.len(),
{
    if s.len() == 0 {
        assert(s.reverse() =~= Seq::<nat>::empty());
        assert(msb_val(Seq::<nat>::empty(), b) == 0);
    } else {
        let r = s.reverse();
        assert(r.len() == s.len());
        assert(r.drop_last() =~= s.drop_first().reverse());
        assert(r.last() == s[0]);
        lemma_le_val_reverse(s.drop_first(), b);
        assert(msb_val(r, b) == b * msb_val(r.drop_last(), b) + r.last());
    }
}

/// The value of a one-digit sequence.
pub proof fn lemma_le_val_singleton(x: nat, b: nat)
    ensures
        le_val(seq![x], b) == x,
{
    let u = seq![x];
    assert(u.len() == 1);
    assert(u[0] == x);
    assert(u.drop_first() =~= Seq::<nat>::empty());
    assert(le_val(Seq::<nat>::empty(), b) == 0);
    assert(le_val(u, b) == u[0] + b * le_val(u.drop_first(), b));
}

/// A value below `b^m` has at most `m` canonical digits.
pub proof fn lemma_msb_digits_len_bound(n: nat, b: nat, m: nat)
    requires
        b >= 2,
        m >= 1,
        n < pow(b as int, m),
    ensures
        msb_digits(n, b).len() <= m,
    decreases m,
{
    if n < b {
    } else {
        lemma_pow1(b as int);
        if m == 1 {
            assert(false);
        }
        lemma_pow_adds(b as int, (m - 1) as nat, 1);
        lemma_pow_positive(b as int, (m - 1) as nat);
        vstd::arithmetic::mul::lemma_mul_is_commutative(pow(b as int, (m - 1) as nat), b as int);
        vstd::arithmetic::div_mod::lemma_multiply_divide_lt(
            n as int,
            b as int,
            pow(b as int, (m - 1) as nat),
        );
        lemma_msb_digits_len_bound(n / b, b, (m - 1) as nat);
    }
}

/// Scaling a modulus scales the remainder: `(x c) mod (m c) == (x mod m) c`.
pub proof fn lemma_mod_scale(x: nat, m: nat, c: nat)
    requires
        m >= 1,
        c >= 1,
    ensures
        (x * c) % (m * c) == (x % m) * c,
        (x * c) / (m * c) == x / m,
{
    lemma_fundamental_div_mod(x as int, m as int);
    lemma_mod_bound(x as int, m as int);
    let q = x as int / m as int;
    let r = x as int % m as int;
    assert(x as int * c == (m * c) * q + r * c) by (nonlinear_arith)
        requires x as int == m * q + r;
    assert(r * c < m as int * c) by (nonlinear_arith)
        requires r < m && c >= 1;
    assert(r * c >= 0) by (nonlinear_arith)
        requires r >= 0 && c >= 1;
    assert(m as int * c >= 1) by (nonlinear_arith)
        requires m >= 1 && c >= 1;
    lemma_fundamental_div_mod_converse(
        (x * c) as int,
        (m * c) as int,
        q,
        r * c,
    );
}

/// Exact division undoes an exact multiple: `x mod c == 0` gives
/// `(x / c) * c == x`.
pub proof fn lemma_div_exact(x: nat, c: nat)
    requires
        c >= 1,
        x % c == 0,
    ensures
        (x / c) * c == x,
{
    lemma_fundamental_div_mod(x as int, c as int);
    vstd::arithmetic::mul::lemma_mul_is_commutative(c as int, (x / c) as int);
}

/// The remainder of a negation: `(-a) mod m == (m - a mod m) mod m`.
pub proof fn lemma_neg_mod(a: int, m: int)
    requires
        m > 0,
        a >= 0,
    ensures
        (-a) % m == (m - a % m) % m,
{
    lemma_fundamental_div_mod(a, m);
    lemma_mod_bound(a, m);
    let q = a / m;
    let r = a % m;
    if r == 0 {
        assert(-a == (-q) * m + 0) by (nonlinear_arith)
            requires a == m * q + 0;
        lemma_fundamental_div_mod_converse(-a, m, -q, 0);
        assert(m - 0 == 1 * m + 0) by (nonlinear_arith);
        lemma_fundamental_div_mod_converse(m, m, 1, 0);
    } else {
        assert(-a == (-q - 1) * m + (m - r)) by (nonlinear_arith)
            requires a == m * q + r;
        lemma_fundamental_div_mod_converse(-a, m, -q - 1, m - r);
        assert(m - r == 0 * m + (m - r)) by (nonlinear_arith);
        lemma_fundamental_div_mod_converse(m - r, m, 0, m - r);
    }
}

/// Cancellation of an exact factor: `(x c) / c == x` and `(x c) % c == 0`.
pub proof fn lemma_mul_cancel(x: nat, c: nat)
    requires
        c >= 1,
    ensures
        (x * c) / c == x,
        (x * c) % c == 0,
{
    lemma_mod_scale(x, 1, c);
    lemma_fundamental_div_mod(x as int, 1);
    assert(1 * c == c);
    assert((x % 1) * c == 0) by (nonlinear_arith)
        requires x % 1 == 0;
    assert(x / 1 == x) by {
        vstd::arithmetic::div_mod::lemma_div_basics(x as int);
    }
}

/// Powers of minus one alternate with the parity of the exponent.
pub proof fn lemma_pow_neg_one(e: nat)
    ensures
        pow(-1, e) == (if e % 2 == 0 {
            1int
        } else {
            -1int
        }),
    decreases e,
{
    if e == 0 {
        lemma_pow0(-1);
    } else {
        lemma_pow_neg_one((e - 1) as nat);
        lemma_pow_adds(-1, (e - 1) as nat, 1);
        lemma_pow1(-1);
        lemma_fundamental_div_mod(e as int, 2);
        lemma_fundamental_div_mod((e - 1) as int, 2);
        lemma_mod_bound(e as int, 2);
        lemma_mod_bound((e - 1) as int, 2);
        assert(e % 2 != (e - 1) % 2) by (nonlinear_arith)
            requires
                e as int == 2 * (e as int / 2) + e as int % 2,
                (e - 1) as int == 2 * ((e - 1) as int / 2) + (e - 1) as int % 2,
                0 <= e as int % 2 < 2,
                0 <= (e - 1) as int % 2 < 2,
        ;
    }
}
} // verus!
