//! The algebraic laws of the library, stated over the same views and spec
//! functions that the operations' contracts use, and proved once and for
//! all.  Together with the canonical-form lemmas on the two integer types
//! these pin down the behaviour of the arithmetic as a whole.

use vstd::prelude::*;
use vstd::arithmetic::power::pow;
use vstd::arithmetic::div_mod::lemma_fundamental_div_mod;
use vstd::arithmetic::div_mod::lemma_mod_bound;
use crate::fmt::spec_digits_string;
use crate::math::msb_digits;
use crate::math::lemma_msb_digits_correct;
use crate::parse::char_digits;
use crate::parse::valid_digits;
use crate::parse::digits_value;
use crate::primitive::bytes_val;
use crate::primitive::bytes_be_val;
use crate::radix::radix_ok;
use crate::radix::spec_char_digit;
use crate::radix::spec_digit_char;
use crate::ubig::UBig;
use crate::ibig::IBig;

verus! {

/// Addition on the signed integers forms a commutative group: adding and
/// subtracting the same value cancels, zero is neutral, a value cancels
/// itself, and the order and grouping of additions do not matter.  The
/// operations promise `r@ == a@ + b@` and `r@ == a@ - b@`, so the law holds
/// of their results.
pub proof fn law_additive_group(a: IBig, b: IBig, c: IBig)
    requires
        a.wf(),
        b.wf(),
        c.wf(),
    ensures
        (a@ + b@) - b@ == a@,
        a@ + 0 == a@,
        a@ - a@ == 0,
        a@ + b@ == b@ + a@,
        (a@ + b@) + c@ == a@ + (b@ + c@),
{
}

/// Multiplication on the signed integers forms a commutative semiring with
/// one: one is neutral, zero annihilates, the order of factors does not
/// matter, and multiplication distributes over addition.  The product
/// promises `r@ == a@ * b@`, so the law holds of its results.
pub proof fn law_multiplicative_semiring(a: IBig, b: IBig, c: IBig)
    requires
        a.wf(),
        b.wf(),
        c.wf(),
    ensures
        a@ * 1 == a@,
        a@ * 0 == 0,
        a@ * b@ == b@ * a@,
        a@ * (b@ + c@) == a@ * b@ + a@ * c@,
{
    vstd::arithmetic::mul::lemma_mul_basics(a@);
    vstd::arithmetic::mul::lemma_mul_is_commutative(a@, b@);
    vstd::arithmetic::mul::lemma_mul_is_distributive_add(a@, b@, c@);
}

/// The division identity of magnitudes: for a nonzero divisor,
/// `a == (a/b)*b + (a%b)` and the remainder lies below the divisor.  The
/// quotient-and-remainder operation promises exactly these two spec values.
pub proof fn law_division_identity(a: UBig, b: UBig)
    requires
        a.wf(),
        b.wf(),
        b@ > 0,
    ensures
        a@ == (a@ / b@) * b@ + (a@ % b@),
        0 <= a@ % b@ < b@,
{
    lemma_fundamental_div_mod(a@ as int, b@ as int);
    lemma_mod_bound(a@ as int, b@ as int);
    vstd::arithmetic::mul::lemma_mul_is_commutative(b@ as int, (a@ / b@) as int);
}

/// The division identity of signed integers, with truncation toward zero:
/// the remainder has the magnitude `|a| mod |b|` and the sign of the
/// dividend, the quotient the magnitude `|a| / |b|` and the product of the
/// signs, and together they rebuild the dividend with `|r| < |b|`.  These
/// are exactly the spec values the signed quotient-and-remainder promises.
pub proof fn law_signed_division_identity(a: IBig, b: IBig)
    requires
        a.wf(),
        b.wf(),
        b@ != 0,
    ensures
        ({
            let ma = if a@ >= 0 { a@ } else { -a@ };
            let mb = if b@ >= 0 { b@ } else { -b@ };
            let q = ma / mb * (if (a@ >= 0) == (b@ >= 0) { 1int } else { -1int });
            let r = (if a@ >= 0 { 1int } else { -1int }) * (ma % mb);
            a@ == q * b@ + r && (if r >= 0 { r } else { -r }) < mb && (r == 0 || (r >= 0) == (
            a@ >= 0))
        }),
{
    let ma = if a@ >= 0 { a@ } else { -a@ };
    let mb = if b@ >= 0 { b@ } else { -b@ };
    lemma_fundamental_div_mod(ma, mb);
    lemma_mod_bound(ma, mb);
    let mq = ma / mb;
    let mr = ma % mb;
    assert(ma == mq * mb + mr) by (nonlinear_arith)
        requires ma == mb * mq + mr;
    let q = mq * (if (a@ >= 0) == (b@ >= 0) { 1int } else { -1int });
    let r = (if a@ >= 0 { 1int } else { -1int }) * mr;
    assert(a@ == q * b@ + r) by (nonlinear_arith)
        requires
            ma == mq * mb + mr,
            ma == (if a@ >= 0 { a@ } else { -a@ }),
            mb == (if b@ >= 0 { b@ } else { -b@ }),
            q == mq * (if (a@ >= 0) == (b@ >= 0) { 1int } else { -1int }),
            r == (if a@ >= 0 { 1int } else { -1int }) * mr,
    ;
    assert((if r >= 0 { r } else { -r }) < mb && (r == 0 || (r >= 0) == (a@ >= 0)))
        by (nonlinear_arith)
        requires r == (if a@ >= 0 { 1int } else { -1int }) * mr && 0 <= mr < mb;
}

/// Byte round trip: writing a magnitude as bytes and reading the bytes back
/// reaches the very same representation.  The writers promise that the
/// bytes carry the value; the readers promise to return that value; the
/// canonical form is unique.
pub proof fn law_le_bytes_round_trip(u: UBig, b: Seq<u8>, r: UBig)
    requires
        u.wf(),
        r.wf(),
        bytes_val(b) == u@,
        r@ == bytes_val(b),
    ensures
        r.same_repr(&u),
{
    UBig::lemma_canonical_unique(&r, &u);
}

/// The big-endian byte round trip.
pub proof fn law_be_bytes_round_trip(u: UBig, b: Seq<u8>, r: UBig)
    requires
        u.wf(),
        r.wf(),
        bytes_be_val(b) == u@,
        r@ == bytes_be_val(b),
    ensures
        r.same_repr(&u),
{
    UBig::lemma_canonical_unique(&r, &u);
}

/// A digit character reads back as its digit.
pub proof fn lemma_digit_char_round_trip(d: nat, upper: bool)
    requires
        d < 36,
    ensures
        spec_char_digit(spec_digit_char(d, upper)) == d,
{
}

/// Radix round trip: for every radix between 2 and 36 and every value, the
/// digit string the formatter promises is nonempty, made of valid digits of
/// the radix in either case, and parses back to the very value.
pub proof fn law_radix_round_trip(n: nat, radix: nat, upper: bool)
    requires
        radix_ok(radix),
    ensures
        valid_digits(spec_digits_string(n, radix, upper), radix),
        digits_value(spec_digits_string(n, radix, upper), radix) == n,
{
    lemma_msb_digits_correct(n, radix);
    let d = msb_digits(n, radix);
    let s = spec_digits_string(n, radix, upper);
    assert(char_digits(s) =~= d) by {
        assert(forall|i: int|
            0 <= i < d.len() ==> #[trigger] char_digits(s)[i] == spec_char_digit(
                spec_digit_char(d[i], upper),
            ));
        assert(forall|i: int|
            0 <= i < d.len() ==> spec_char_digit(spec_digit_char(#[trigger] d[i], upper))
                == d[i]);
    }
}

/// Modular homomorphism: reducing first and operating in the ring is the
/// same as operating on the integers and reducing once, for addition,
/// subtraction, negation, multiplication and powers.  The ring promises
/// `residue(from(x)) == x mod m` and that each operation combines residues
/// modulo `m`; these equations carry the promise over whole expressions.
pub proof fn law_modular_homomorphism(a: int, b: int, m: int, e: nat)
    requires
        m >= 2,
    ensures
        ((a % m) + (b % m)) % m == (a + b) % m,
        ((a % m) - (b % m)) % m == (a - b) % m,
        (-(a % m)) % m == (-a) % m,
        ((a % m) * (b % m)) % m == (a * b) % m,
        pow(a % m, e) % m == pow(a, e) % m,
{
    vstd::arithmetic::div_mod::lemma_add_mod_noop(a, b, m);
    vstd::arithmetic::div_mod::lemma_sub_mod_noop(a, b, m);
    vstd::arithmetic::div_mod::lemma_mul_mod_noop_general(a, b, m);
    vstd::arithmetic::power::lemma_pow_mod_noop(a, e, m);
    // negation: subtracting from zero
    vstd::arithmetic::div_mod::lemma_sub_mod_noop(0, a, m);
    assert((0int) % m == 0) by {
        vstd::arithmetic::div_mod::lemma_small_mod(0nat, m as nat);
    }
    assert((0 - (a % m)) % m == (0 - a) % m);
}

} // verus!
