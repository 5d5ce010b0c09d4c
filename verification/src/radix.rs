//! Digits of the radices 2 through 36: their values, their characters in
//! both cases, and for each radix the largest power that fits in a word,
//! which drives batched conversion.

use vstd::prelude::*;
use vstd::arithmetic::power::pow;
use vstd::arithmetic::power::lemma_pow1;
use vstd::arithmetic::power::lemma_pow_adds;
use vstd::arithmetic::mul::lemma_mul_is_commutative;
use vstd::arithmetic::div_mod::lemma_fundamental_div_mod;

verus! {

/// Greatest radix the library accepts.
pub const MAX_RADIX: u64 = 36;

/// A radix must lie between 2 and 36 inclusive.
pub open spec fn radix_ok(radix: nat) -> bool {
    2 <= radix <= 36
}

pub fn is_radix_valid(radix: u64) -> (r: bool)
    ensures
        r == radix_ok(radix as nat),
{
    2 <= radix && radix <= 36
}

/// The numeric value of an ASCII digit character: `0-9`, then `a-z` or
/// `A-Z` for ten to thirty-five; 36 marks everything else as invalid.
pub open spec fn spec_char_digit(c: char) -> nat {
    if 48 <= c as int <= 57 {
        (c as int - 48) as nat
    } else if 97 <= c as int <= 122 {
        (c as int - 87) as nat
    } else if 65 <= c as int <= 90 {
        (c as int - 55) as nat
    } else {
        36
    }
}

/// The character of a digit, in the requested case.
pub open spec fn spec_digit_char(d: nat, upper: bool) -> char {
    if d < 10 {
        ((48 + d) as u8) as char
    } else if upper {
        ((55 + d) as u8) as char
    } else {
        ((87 + d) as u8) as char
    }
}

/// The digit value of a character, or 36 when it is no digit at all.
pub fn char_digit(c: char) -> (d: u64)
    ensures
        d as nat == spec_char_digit(c),
        d <= 36,
{
    let v = c as u32;
    if 48 <= v && v <= 57 {
        (v - 48) as u64
    } else if 97 <= v && v <= 122 {
        (v - 87) as u64
    } else if 65 <= v && v <= 90 {
        (v - 55) as u64
    } else {
        36
    }
}

/// The ASCII byte of a digit, lower or upper case.
pub fn digit_to_ascii(d: u64, upper: bool) -> (b: u8)
    requires
        d < 36,
    ensures
        b as char == spec_digit_char(d as nat, upper),
        b < 128,
        spec_char_digit(b as char) == d as nat,
{
    if d < 10 {
        (48 + d) as u8
    } else if upper {
        (55 + d) as u8
    } else {
        (87 + d) as u8
    }
}

/// For a radix, the largest power that still fits in a word: the number of
/// digits a full word batch carries, and the batch base `radix^digits`.
pub fn radix_info(radix: u64) -> (r: (u64, u64))
    requires
        2 <= radix <= 36,
    ensures
        r.1 as nat == pow(radix as int, r.0 as nat),
        r.0 >= 1,
        pow(radix as int, (r.0 + 1) as nat) > 0xffffffffffffffff,
        r.1 >= 2,
{
    let mut g: u64 = 1;
    let mut p: u64 = radix;
    proof {
        lemma_pow1(radix as int);
    }
    while p <= 0xffffffffffffffff / radix
        invariant
            2 <= radix <= 36,
            1 <= g <= 64,
            p as nat == pow(radix as int, g as nat),
            p >= 2,
        decreases 0xffffffffffffffffu64 - p,
    {
        proof {
            crate::math::lemma_pow_base_le(2, radix as nat, g as nat);
            vstd::arithmetic::power2::lemma_pow2(g as nat);
            vstd::arithmetic::power2::lemma2_to64();
            if g >= 64 {
                crate::primitive::lemma_pow2_le_connect(64, g as nat);
                assert(false);
            }
            lemma_fundamental_div_mod(0xffffffffffffffff, radix as int);
            vstd::arithmetic::div_mod::lemma_mod_bound(0xffffffffffffffff, radix as int);
            // p <= MAX/radix implies p * radix <= MAX
            assert(p as int * radix as int <= 0xffffffffffffffffint) by (nonlinear_arith)
                requires
                    p as int <= 0xffffffffffffffffint / radix as int,
                    radix as int >= 2,
                    0xffffffffffffffffint == radix as int * (0xffffffffffffffffint / radix as int)
                        + 0xffffffffffffffffint % radix as int,
                    0xffffffffffffffffint % radix as int >= 0,
            ;
            lemma_pow_adds(radix as int, g as nat, 1);
            lemma_pow1(radix as int);
            lemma_mul_is_commutative(pow(radix as int, g as nat), radix as int);
            assert(p * 2 <= p * radix) by (nonlinear_arith)
                requires radix >= 2 && p >= 0;
        }
        p = p * radix;
        g = g + 1;
    }
    proof {
        // past the guard, one more factor overflows the word
        lemma_fundamental_div_mod(0xffffffffffffffff, radix as int);
        vstd::arithmetic::div_mod::lemma_mod_bound(0xffffffffffffffff, radix as int);
        assert(p as int * radix as int > 0xffffffffffffffffint) by (nonlinear_arith)
            requires
                p as int > 0xffffffffffffffffint / radix as int,
                radix as int >= 2,
                0xffffffffffffffffint == radix as int * (0xffffffffffffffffint / radix as int)
                    + 0xffffffffffffffffint % radix as int,
                (0xffffffffffffffffint % radix as int) < radix as int,
        ;
        lemma_pow_adds(radix as int, g as nat, 1);
        lemma_pow1(radix as int);
        lemma_mul_is_commutative(pow(radix as int, g as nat), radix as int);
    }
    (g, p)
}

} // verus!
