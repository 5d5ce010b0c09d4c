//! Parsing digit strings in radices 2 through 36: an optional sign for the
//! signed type, an optional base prefix in the prefix-aware entry points,
//! then digits folded into the magnitude.  An empty magnitude and an invalid
//! digit are the two recoverable errors; a radix outside the range is ruled
//! out by contract.

use vstd::prelude::*;
use vstd::arithmetic::power::pow;
use vstd::arithmetic::power2::pow2;
use crate::error::ParseError;
use crate::math::msb_val;
use crate::math::lemma_msb_val_take_succ;
use crate::math::lemma_msb_val_bound;
use crate::math::lemma_pow_base_le;
use crate::math::all_below;
use crate::radix::spec_char_digit;
use crate::radix::char_digit;
use crate::radix::radix_ok;
use crate::sign::Sign;
use crate::ubig::UBig;
use crate::ibig::IBig;

verus! {

/// The longest digit string the parser accepts: derived from the capacity
/// cap, since even base-2 digits fill at most one word per sixty-four.
pub const MAX_PARSE_LEN: usize = 8 * crate::MAX_CAPACITY - 1;

/// The digit values of a character sequence.
pub open spec fn char_digits(s: Seq<char>) -> Seq<nat> {
    Seq::new(s.len(), |i: int| spec_char_digit(s[i]))
}

/// A nonempty, all-valid digit string for the radix.
pub open spec fn valid_digits(s: Seq<char>, radix: nat) -> bool {
    s.len() > 0 && forall|i: int| 0 <= i < s.len() ==> spec_char_digit(s[i]) < radix
}

/// The number a digit string denotes, most significant digit first.
pub open spec fn digits_value(s: Seq<char>, radix: nat) -> nat {
    msb_val(char_digits(s), radix)
}

/// A magnitude below `radix^m` occupies few words.
proof fn lemma_parse_acc_fits(v: nat, radix: nat, m: nat)
    requires
        2 <= radix <= 36,
        v < pow(radix as int, m),
    ensures
        v < pow2(64 * (6 * m / 64 + 1)),
{
    lemma_pow_base_le(radix, 64, m);
    vstd::arithmetic::power2::lemma_pow2(6);
    vstd::arithmetic::power2::lemma2_to64();
    assert(pow(2, 6) == 64);
    vstd::arithmetic::power::lemma_pow_multiplies(2, 6, m);
    vstd::arithmetic::power2::lemma_pow2((6 * m) as nat);
    crate::primitive::lemma_pow2_le_connect((6 * m) as nat, 64 * (6 * m / 64 + 1));
    assert(6 * m <= 64 * (6 * m / 64 + 1)) by (nonlinear_arith)
        requires 6 * m == 64 * ((6 * m) / 64) + (6 * m) % 64 && 0 <= (6 * m) % 64 < 64;
    vstd::arithmetic::div_mod::lemma_fundamental_div_mod((6 * m) as int, 64);
    vstd::arithmetic::div_mod::lemma_mod_bound((6 * m) as int, 64);
}

impl UBig {
    /// Parse the digits of `s` from position `start` on, in the given radix.
    /// Succeeds exactly on a nonempty run of valid digits; a lone prefix or
    /// sign leaves no digits, which is its own error.
    pub(crate) fn parse_digits(s: &str, radix: u64, start: usize) -> (res: Result<UBig, ParseError>)
        requires
            radix_ok(radix as nat),
            start <= s@.len(),
            s@.len() <= MAX_PARSE_LEN,
        ensures
            res is Ok <==> valid_digits(s@.skip(start as int), radix as nat),
            res is Ok ==> res->Ok_0.wf() && res->Ok_0@ == digits_value(
                s@.skip(start as int),
                radix as nat,
            ),
            res is Err ==> ((res->Err_0 == ParseError::NoDigits) <==> s@.len() == start),
    {
        let n = s.unicode_len();
        if start == n {
            return Err(ParseError::NoDigits);
        }
        let ghost digs = char_digits(s@.skip(start as int));
        let mut acc = UBig::from_word(0);
        let mut i: usize = start;
        proof {
            assert(digs.take(0) =~= Seq::<nat>::empty());
            assert(msb_val(Seq::<nat>::empty(), radix as nat) == 0);
            vstd::arithmetic::power::lemma_pow0(radix as int);
        }
        while i < n
            invariant
                start <= i <= n,
                n == s@.len() <= MAX_PARSE_LEN,
                start < n,
                radix_ok(radix as nat),
                digs == char_digits(s@.skip(start as int)),
                acc.wf(),
                acc@ == msb_val(digs.take(i - start), radix as nat),
                forall|j: int| 0 <= j < i - start ==> digs[j] < radix as nat,
            decreases n - i,
        {
            let c = s.get_char(i);
            let d = char_digit(c);
            if d >= radix {
                proof {
                    assert(digs[i - start] == spec_char_digit(s@[i as int]));
                    assert(!valid_digits(s@.skip(start as int), radix as nat));
                }
                return Err(ParseError::InvalidDigit);
            }
            proof {
                let m = (i - start) as nat;
                let t = digs.take(m as int);
                assert(all_below(t, radix as nat));
                lemma_msb_val_bound(t, radix as nat);
                lemma_parse_acc_fits(acc@, radix as nat, m);
                acc.lemma_num_words_le(6 * m / 64 + 1);
                assert(6 * m / 64 + 1 + 2 <= crate::MAX_CAPACITY) by (nonlinear_arith)
                    requires m <= 0x7fffffff && 6 * m / 64 <= 6 * m && crate::MAX_CAPACITY
                        == 0x10000000;
                vstd::arithmetic::div_mod::lemma_div_nonincreasing((6 * m) as int, 64);
                lemma_msb_val_take_succ(digs, m as int, radix as nat);
                assert(digs[i - start] == spec_char_digit(s@[i as int]));
            }
            acc = acc.mul_add_word(radix, d);
            i = i + 1;
        }
        proof {
            assert(digs.take(n - start) =~= digs);
            assert(forall|j: int|
                0 <= j < n - start ==> digs[j] == #[trigger] spec_char_digit(
                    s@.skip(start as int)[j],
                ));
        }
        Ok(acc)
    }

    /// Parse a magnitude written in the given radix; no sign, no prefix.
    pub fn from_str_radix(s: &str, radix: u32) -> (res: Result<UBig, ParseError>)
        requires
            radix_ok(radix as nat),
            s@.len() <= MAX_PARSE_LEN,
        ensures
            res is Ok <==> valid_digits(s@, radix as nat),
            res is Ok ==> res->Ok_0.wf() && res->Ok_0@ == digits_value(s@, radix as nat),
            res is Err ==> ((res->Err_0 == ParseError::NoDigits) <==> s@.len() == 0),
    {
        let r = UBig::parse_digits(s, radix as u64, 0);
        proof {
            assert(s@.skip(0) =~= s@);
        }
        r
    }

    /// Parse a magnitude with an optional `0b`, `0o` or `0x` prefix; without
    /// one the string is read as decimal.
    pub fn from_str_with_radix_prefix(s: &str) -> (res: Result<UBig, ParseError>)
        requires
            s@.len() <= MAX_PARSE_LEN,
        ensures
            res is Ok ==> res->Ok_0.wf(),
            spec_has_radix_prefix(s@) ==> (res is Ok <==> valid_digits(
                s@.skip(2),
                spec_prefix_radix(s@),
            )) && (res is Ok ==> res->Ok_0@ == digits_value(s@.skip(2), spec_prefix_radix(s@))),
            !spec_has_radix_prefix(s@) ==> (res is Ok <==> valid_digits(s@, 10)) && (res is Ok
                ==> res->Ok_0@ == digits_value(s@, 10)),
    {
        if s.unicode_len() >= 2 && s.get_char(0) == '0' {
            let c = s.get_char(1);
            if c == 'b' {
                return UBig::parse_digits(s, 2, 2);
            }
            if c == 'o' {
                return UBig::parse_digits(s, 8, 2);
            }
            if c == 'x' {
                return UBig::parse_digits(s, 16, 2);
            }
        }
        let r = UBig::parse_digits(s, 10, 0);
        proof {
            assert(s@.skip(0) =~= s@);
        }
        r
    }
}

/// The string opens with a base prefix `0b`, `0o` or `0x`.
pub open spec fn spec_has_radix_prefix(s: Seq<char>) -> bool {
    s.len() >= 2 && s[0] == '0' && (s[1] == 'b' || s[1] == 'o' || s[1] == 'x')
}

/// The radix a prefix selects.
pub open spec fn spec_prefix_radix(s: Seq<char>) -> nat {
    if s[1] == 'b' {
        2
    } else if s[1] == 'o' {
        8
    } else {
        16
    }
}

/// The string opens with an explicit sign.
pub open spec fn spec_has_sign(s: Seq<char>) -> bool {
    s.len() >= 1 && (s[0] == '-' || s[0] == '+')
}

impl IBig {
    /// Parse a signed number in the given radix: an optional sign, then
    /// digits.  A lone sign has no digits and is rejected as such.
    pub fn from_str_radix(s: &str, radix: u32) -> (res: Result<IBig, ParseError>)
        requires
            radix_ok(radix as nat),
            s@.len() <= MAX_PARSE_LEN,
        ensures
            res is Ok <==> valid_digits(
                if spec_has_sign(s@) {
                    s@.skip(1)
                } else {
                    s@
                },
                radix as nat,
            ),
            res is Ok ==> res->Ok_0.wf() && res->Ok_0@ == (if spec_has_sign(s@) && s@[0] == '-' {
                -(digits_value(s@.skip(1), radix as nat) as int)
            } else if spec_has_sign(s@) {
                digits_value(s@.skip(1), radix as nat) as int
            } else {
                digits_value(s@, radix as nat) as int
            }),
            res is Err ==> ((res->Err_0 == ParseError::NoDigits) <==> s@.len() == (
            if spec_has_sign(s@) {
                1int
            } else {
                0int
            })),
    {
        let n = s.unicode_len();
        let mut start: usize = 0;
        let mut negative = false;
        if n >= 1 {
            let c = s.get_char(0);
            if c == '-' {
                start = 1;
                negative = true;
            } else if c == '+' {
                start = 1;
            }
        }
        let mag = match UBig::parse_digits(s, radix as u64, start) {
            Ok(m) => m,
            Err(e) => {
                return Err(e);
            }
        };
        proof {
            if start == 0 {
                assert(s@.skip(0) =~= s@);
            }
        }
        let sign = if negative {
            Sign::Negative
        } else {
            Sign::Positive
        };
        Ok(IBig::from_sign_magnitude(sign, mag))
    }
}


impl IBig {
    /// Parse a signed number with an optional `0b`, `0o` or `0x` prefix
    /// after the sign; without one the digits are read as decimal.
    pub fn from_str_with_radix_prefix(s: &str) -> (res: Result<IBig, ParseError>)
        requires
            s@.len() <= MAX_PARSE_LEN,
        ensures
            res is Ok ==> res->Ok_0.wf(),
            ({
                let body = if spec_has_sign(s@) {
                    s@.skip(1)
                } else {
                    s@
                };
                res is Ok <==> (if spec_has_radix_prefix(body) {
                    valid_digits(body.skip(2), spec_prefix_radix(body))
                } else {
                    valid_digits(body, 10)
                })
            }),
            res is Ok ==> ({
                let body = if spec_has_sign(s@) {
                    s@.skip(1)
                } else {
                    s@
                };
                let mag = if spec_has_radix_prefix(body) {
                    digits_value(body.skip(2), spec_prefix_radix(body)) as int
                } else {
                    digits_value(body, 10) as int
                };
                res->Ok_0@ == if spec_has_sign(s@) && s@[0] == '-' {
                    -mag
                } else {
                    mag
                }
            }),
    {
        let n = s.unicode_len();
        let mut start: usize = 0;
        let mut negative = false;
        if n >= 1 {
            let c = s.get_char(0);
            if c == '-' {
                start = 1;
                negative = true;
            } else if c == '+' {
                start = 1;
            }
        }
        let ghost body = if start == 1 {
            s@.skip(1)
        } else {
            s@
        };
        proof {
            if start == 0 {
                assert(s@.skip(0) =~= s@);
            }
        }
        let mut radix: u64 = 10;
        let mut dstart: usize = start;
        if n - start >= 2 && s.get_char(start) == '0' {
            let c = s.get_char(start + 1);
            proof {
                assert(body[0] == s@[start as int]);
                assert(body[1] == s@[start as int + 1]);
            }
            if c == 'b' {
                radix = 2;
                dstart = start + 2;
            } else if c == 'o' {
                radix = 8;
                dstart = start + 2;
            } else if c == 'x' {
                radix = 16;
                dstart = start + 2;
            }
        }
        proof {
            if dstart == start + 2 {
                assert(s@.skip(dstart as int) =~= body.skip(2));
            } else {
                assert(s@.skip(dstart as int) =~= body);
            }
        }
        let mag = match UBig::parse_digits(s, radix, dstart) {
            Ok(m) => m,
            Err(e) => {
                return Err(e);
            }
        };
        let sign = if negative {
            Sign::Negative
        } else {
            Sign::Positive
        };
        Ok(IBig::from_sign_magnitude(sign, mag))
    }
}

impl core::str::FromStr for UBig {
    type Err = ParseError;

    /// Parse a decimal magnitude; a string too long for the capacity cap is
    /// rejected as an invalid digit string.
    fn from_str(s: &str) -> Result<UBig, ParseError> {
        if s.unicode_len() <= MAX_PARSE_LEN {
            UBig::from_str_radix(s, 10)
        } else {
            Err(ParseError::InvalidDigit)
        }
    }
}

impl core::str::FromStr for IBig {
    type Err = ParseError;

    /// Parse a decimal signed integer; a string too long for the capacity
    /// cap is rejected as an invalid digit string.
    fn from_str(s: &str) -> Result<IBig, ParseError> {
        if s.unicode_len() <= MAX_PARSE_LEN {
            IBig::from_str_radix(s, 10)
        } else {
            Err(ParseError::InvalidDigit)
        }
    }
}
} // verus!
