//! Formatting magnitudes and signed numbers in radices 2 through 36.
//!
//! The digits are produced in word-sized groups: for a radix whose digits
//! pack a word exactly (2, 4 and 16) the groups are the words themselves;
//! for every other radix the magnitude is repeatedly divided by the largest
//! radix power that fits in a word, and each remainder becomes one group.
//! The top group prints without leading zeros, every lower group zero-padded
//! to the full group width.  Width, fill, alignment, plus-sign, zero-padding
//! and case are applied afterwards, exactly once.

use vstd::prelude::*;
use vstd::arithmetic::power::pow;
use crate::math::msb_val;
use crate::math::le_val;
use crate::math::msb_digits;
use crate::math::msb_digits_pad;
use crate::math::all_below;
use crate::math::lemma_msb_pad_props;
use crate::math::lemma_msb_pad_unique;
use crate::math::lemma_le_val_reverse;
use crate::math::lemma_msb_val_append;
use crate::math::lemma_msb_digits_correct;
use crate::math::lemma_msb_digits_unique;
use crate::math::lemma_le_val_skip_step;
use crate::math::lemma_le_val_push;
use crate::primitive::nat_seq_u64;
use crate::primitive::word_base;
use crate::radix::spec_digit_char;
use crate::radix::digit_to_ascii;
use crate::radix::radix_ok;
use crate::radix::radix_info;
use crate::sign::Sign;
use crate::ubig::UBig;
use crate::ibig::IBig;

verus! {

/// The characters of a digit-value sequence, in the chosen case.
pub open spec fn digit_chars(ds: Seq<nat>, upper: bool) -> Seq<char> {
    Seq::new(ds.len(), |i: int| spec_digit_char(ds[i], upper))
}

/// The digit string of `n` in the given radix: its canonical digits as
/// characters, most significant first; zero prints as a single `0`.
pub open spec fn spec_digits_string(n: nat, radix: nat, upper: bool) -> Seq<char> {
    digit_chars(msb_digits(n, radix), upper)
}

/// `k` copies of a fill character.
pub open spec fn fill_seq(c: char, k: nat) -> Seq<char> {
    Seq::new(k, |i: int| c)
}

/// Alignment inside a minimum width; numbers align right by default.
#[derive(Clone, Copy, Debug, PartialEq, Eq, Structural)]
pub enum FmtAlign {
    Left,
    Right,
    Center,
}

/// The standard formatting directives: minimum width, fill character,
/// alignment, forced plus sign, sign-aware zero padding, upper case, and a
/// base prefix written between the sign and the digits and counted toward
/// the minimum width.
#[derive(Clone, Copy)]
pub struct FmtOptions {
    pub width: usize,
    pub fill: char,
    pub align: FmtAlign,
    pub sign_plus: bool,
    pub zero_pad: bool,
    pub upper: bool,
    pub prefix: &'static str,
}

impl FmtOptions {
    /// The defaults: no minimum width, blank fill, right alignment, no
    /// forced sign, no zero padding, lower case.
    pub fn new() -> (r: FmtOptions)
        ensures
            r.width == 0 && r.fill == ' ' && r.align == FmtAlign::Right && !r.sign_plus
                && !r.zero_pad && !r.upper && r.prefix@ == Seq::<char>::empty(),
    {
        proof {
            reveal_strlit("");
        }
        FmtOptions {
            width: 0,
            fill: ' ',
            align: FmtAlign::Right,
            sign_plus: false,
            zero_pad: false,
            upper: false,
            prefix: "",
        }
    }
}

/// The fully formatted text: sign, then prefix, then digits, padded to the
/// minimum width -- by zeros after the sign and prefix when zero-padding is
/// on, by the fill character around the body otherwise.
pub open spec fn spec_format(neg: bool, mag: nat, radix: nat, o: FmtOptions) -> Seq<char> {
    let digits = spec_digits_string(mag, radix, o.upper);
    let sign: Seq<char> = if neg {
        seq!['-']
    } else if o.sign_plus {
        seq!['+']
    } else {
        Seq::<char>::empty()
    };
    let body = sign + o.prefix@ + digits;
    if body.len() >= o.width {
        body
    } else if o.zero_pad {
        sign + o.prefix@ + fill_seq('0', (o.width - body.len()) as nat) + digits
    } else {
        let pad = (o.width - body.len()) as nat;
        let left = if o.align is Left {
            0nat
        } else if o.align is Center {
            pad / 2
        } else {
            pad
        };
        fill_seq(o.fill, left) + body + fill_seq(o.fill, (pad - left) as nat)
    }
}

/// Relies on ascii::AsciiStr::from_ascii and AsciiStr::as_str: a slice of
/// ASCII bytes is valid UTF-8 and reads back as the same bytes, one
/// character each.
#[verifier::external_body]
fn ascii_bytes_to_string(bytes: &[u8]) -> (r: String)
    requires
        forall|i: int| 0 <= i < bytes@.len() ==> bytes@[i] < 128,
    ensures
        r@.len() == bytes@.len(),
        forall|i: int| 0 <= i < bytes@.len() ==> r@[i] == bytes@[i] as char,
{
    match ascii::AsciiStr::from_ascii(bytes) {
        Ok(s) => s.as_str().to_owned(),
        Err(_) => String::new(),
    }
}

/// Relies on String::push: it appends exactly the given character.
#[verifier::external_body]
fn push_char(s: &mut String, c: char)
    ensures
        final(s)@ == old(s)@.push(c),
{
    s.push(c);
}

/// The digits of one word in the given radix, most significant first,
/// zero-padded on the left to at least `min_digits` digits.
fn word_digits(w: u64, radix: u64, min_digits: usize, upper: bool) -> (r: Vec<u8>)
    requires
        radix_ok(radix as nat),
        1 <= min_digits <= 64,
    ensures
        r@.len() == msb_digits_pad(w as nat, radix as nat, min_digits as nat).len(),
        forall|i: int|
            0 <= i < r@.len() ==> r@[i] as char == spec_digit_char(
                msb_digits_pad(w as nat, radix as nat, min_digits as nat)[i],
                upper,
            ) && r@[i] < 128,
{
    let mut dv: Vec<u64> = Vec::new();
    let mut x: u64 = w;
    proof {
        vstd::arithmetic::power::lemma_pow0(radix as int);
        assert(nat_seq_u64(dv@) =~= Seq::<nat>::empty());
        assert(le_val(Seq::<nat>::empty(), radix as nat) == 0);
        assert((x as nat) * 1 == x as nat) by (nonlinear_arith);
    }
    while x > 0
        invariant
            radix_ok(radix as nat),
            w as nat == (x as nat) * pow(radix as int, dv@.len()) + le_val(
                nat_seq_u64(dv@),
                radix as nat,
            ),
            all_below(nat_seq_u64(dv@), radix as nat),
            x == 0 && dv@.len() > 0 ==> nat_seq_u64(dv@).last() >= 1,
            dv@.len() <= 64,
        decreases x,
    {
        let d = x % radix;
        let ghost xold = x;
        let ghost dvold = dv@;
        proof {
            vstd::arithmetic::div_mod::lemma_fundamental_div_mod(x as int, radix as int);
            vstd::arithmetic::div_mod::lemma_mod_bound(x as int, radix as int);
            vstd::arithmetic::div_mod::lemma_div_decreases(x as int, radix as int);
            // the number of digits of a word never passes 64
            if dv@.len() >= 64 {
                crate::math::lemma_pow_base_le(2, radix as nat, dv@.len());
                vstd::arithmetic::power2::lemma_pow2(dv@.len());
                vstd::arithmetic::power2::lemma2_to64();
                crate::primitive::lemma_pow2_le_connect(64, dv@.len());
                assert((x as nat) * pow(radix as int, dv@.len()) >= 1 * pow(
                    radix as int,
                    dv@.len(),
                )) by (nonlinear_arith)
                    requires x >= 1 && pow(radix as int, dv@.len()) >= 0;
                vstd::arithmetic::power::lemma_pow_positive(radix as int, dv@.len());
                assert(false);
            }
        }
        x = x / radix;
        dv.push(d);
        proof {
            assert(nat_seq_u64(dv@) =~= nat_seq_u64(dvold).push(d as nat));
            lemma_le_val_push(nat_seq_u64(dvold), d as nat, radix as nat);
            vstd::arithmetic::power::lemma_pow_adds(radix as int, dvold.len(), 1);
            vstd::arithmetic::power::lemma_pow1(radix as int);
            vstd::arithmetic::power::lemma_pow_positive(radix as int, dvold.len());
            // w == (radix*x + d) * radix^k + le_val(old)
            assert(w as nat == (x as nat) * pow(radix as int, dv@.len()) + le_val(
                nat_seq_u64(dv@),
                radix as nat,
            )) by (nonlinear_arith)
                requires
                    w as nat == (xold as nat) * pow(radix as int, dvold.len()) + le_val(
                        nat_seq_u64(dvold),
                        radix as nat,
                    ),
                    xold as nat == radix as nat * (x as nat) + d as nat,
                    le_val(nat_seq_u64(dv@), radix as nat) == le_val(nat_seq_u64(dvold), radix as nat)
                        + pow(radix as int, dvold.len()) * (d as nat),
                    pow(radix as int, dv@.len()) == pow(radix as int, dvold.len()) * (radix as nat),
                    dv@.len() == dvold.len() + 1,
                    pow(radix as int, dvold.len()) >= 0,
            ;
            if x == 0 {
                assert(nat_seq_u64(dv@).last() == d as nat);
                assert(d as nat == xold as nat % radix as nat);
                assert(xold as nat == radix as nat * 0 + d as nat);
            }
        }
    }
    proof {
        assert((0nat) * pow(radix as int, dv@.len()) == 0) by (nonlinear_arith);
    }
    let ghost dva = dv@;
    while dv.len() < min_digits
        invariant
            radix_ok(radix as nat),
            min_digits <= 64,
            w as nat == le_val(nat_seq_u64(dv@), radix as nat),
            all_below(nat_seq_u64(dv@), radix as nat),
            dva.len() > 0 ==> nat_seq_u64(dva).last() >= 1,
            dv@.len() > min_digits ==> dv@ == dva,
            dv@.len() >= dva.len(),
            dv@ == dva || dv@.len() <= min_digits,
        decreases min_digits - dv@.len(),
    {
        let ghost dvold = dv@;
        dv.push(0);
        proof {
            assert(nat_seq_u64(dv@) =~= nat_seq_u64(dvold).push(0nat));
            lemma_le_val_push(nat_seq_u64(dvold), 0nat, radix as nat);
            assert(pow(radix as int, dvold.len()) * 0 == 0) by (nonlinear_arith);
        }
    }
    // the reversed digits are the padded canonical sequence
    let ghost lowseq = nat_seq_u64(dv@);
    let ghost m = lowseq.reverse();
    proof {
        lemma_le_val_reverse(lowseq, radix as nat);
        assert(all_below(m, radix as nat)) by {
            assert(forall|i: int| 0 <= i < m.len() ==> m[i] == lowseq[m.len() - 1 - i]);
        }
        assert(m.len() >= min_digits);
        if m.len() > min_digits {
            assert(dv@ == dva);
            assert(m[0] == lowseq.last());
        }
        lemma_msb_pad_unique(m, radix as nat, min_digits as nat);
        assert(m =~= msb_digits_pad(w as nat, radix as nat, min_digits as nat));
    }
    let n = dv.len();
    let mut out: Vec<u8> = Vec::new();
    let mut j: usize = 0;
    while j < n
        invariant
            radix_ok(radix as nat),
            n == dv@.len(),
            m == nat_seq_u64(dv@).reverse(),
            m =~= msb_digits_pad(w as nat, radix as nat, min_digits as nat),
            all_below(nat_seq_u64(dv@), radix as nat),
            j <= n,
            out@.len() == j,
            forall|i: int|
                0 <= i < j ==> out@[i] as char == spec_digit_char(m[i], upper) && out@[i] < 128,
        decreases n - j,
    {
        let d = dv[n - 1 - j];
        proof {
            assert(m[j as int] == nat_seq_u64(dv@)[n - 1 - j]);
            assert(nat_seq_u64(dv@)[n - 1 - j] < radix as nat);
        }
        let b = digit_to_ascii(d, upper);
        out.push(b);
        j = j + 1;
    }
    proof {
        assert(m == msb_digits_pad(w as nat, radix as nat, min_digits as nat));
        assert(forall|i: int|
            0 <= i < out@.len() ==> out@[i] as char == spec_digit_char(
                msb_digits_pad(w as nat, radix as nat, min_digits as nat)[i],
                upper,
            ) && out@[i] < 128);
    }
    out
}


/// The digit bytes of a stack of word-sized groups: the top group without
/// leading zeros, every lower group padded to the full group width.  The
/// group base is `radix^g`, given as a ghost value so the word-aligned
/// radices can use the full `2^64` base.
fn emit_groups(
    top: u64,
    groups: &Vec<u64>,
    radix: u64,
    g: usize,
    upper: bool,
    Ghost(rg): Ghost<nat>,
) -> (r: Vec<u8>)
    requires
        radix_ok(radix as nat),
        top >= 1,
        1 <= g <= 64,
        rg == pow(radix as int, g as nat),
        forall|i: int| 0 <= i < groups@.len() ==> (groups@[i] as nat) < rg,
    ensures
        ({
            let total = le_val(nat_seq_u64(groups@).push(top as nat), rg);
            r@.len() == msb_digits(total, radix as nat).len() && (forall|i: int|
                0 <= i < r@.len() ==> r@[i] as char == spec_digit_char(
                    msb_digits(total, radix as nat)[i],
                    upper,
                ) && r@[i] < 128)
        }),
{
    let ghost w = nat_seq_u64(groups@).push(top as nat);
    let mut out = word_digits(top, radix, 1, upper);
    let ghost dseq = msb_digits_pad(top as nat, radix as nat, 1);
    proof {
        lemma_msb_pad_props(top as nat, radix as nat, 1);
        lemma_msb_digits_correct(top as nat, radix as nat);
        assert(dseq =~= msb_digits(top as nat, radix as nat));
        assert(w.skip(groups@.len() as int) =~= seq![top as nat]);
        crate::math::lemma_le_val_singleton(top as nat, rg);
        assert(dseq[0] >= 1);
    }
    let mut i: usize = groups.len();
    let ghost mut d = dseq;
    while i > 0
        invariant
            radix_ok(radix as nat),
            1 <= g <= 64,
            rg == pow(radix as int, g as nat),
            i <= groups@.len(),
            w == nat_seq_u64(groups@).push(top as nat),
            forall|k: int| 0 <= k < groups@.len() ==> (groups@[k] as nat) < rg,
            msb_val(d, radix as nat) == le_val(w.skip(i as int), rg),
            all_below(d, radix as nat),
            d.len() >= 1,
            d[0] >= 1,
            out@.len() == d.len(),
            forall|k: int|
                0 <= k < out@.len() ==> out@[k] as char == spec_digit_char(d[k], upper) && out@[k]
                    < 128,
        decreases i,
    {
        i = i - 1;
        let ghost gval = groups@[i as int] as nat;
        proof {
            crate::math::lemma_msb_digits_len_bound(gval, radix as nat, g as nat);
            lemma_msb_pad_props(gval, radix as nat, g as nat);
        }
        let mut dig = word_digits(groups[i], radix, g, upper);
        let ghost p = msb_digits_pad(gval, radix as nat, g as nat);
        let ghost dold = d;
        proof {
            assert(p.len() == g);
            lemma_msb_val_append(dold, p, radix as nat);
            lemma_le_val_skip_step(w, i as int, rg);
            assert(w[i as int] == gval);
            d = dold + p;
            // the appended group keeps the running value aligned
            assert(msb_val(d, radix as nat) == le_val(w.skip(i as int), rg)) by (nonlinear_arith)
                requires
                    msb_val(d, radix as nat) == msb_val(dold, radix as nat) * pow(
                        radix as int,
                        p.len(),
                    ) + msb_val(p, radix as nat),
                    msb_val(dold, radix as nat) == le_val(w.skip(i + 1), rg),
                    le_val(w.skip(i as int), rg) == gval + rg * le_val(w.skip(i + 1), rg),
                    msb_val(p, radix as nat) == gval,
                    pow(radix as int, p.len()) == rg,
            ;
            assert(all_below(d, radix as nat)) by {
                assert(forall|k: int|
                    0 <= k < d.len() ==> d[k] == (if k < dold.len() {
                        dold[k]
                    } else {
                        p[k - dold.len()]
                    }));
            }
        }
        let ghost outold = out@;
        out.append(&mut dig);
        proof {
            assert(forall|k: int|
                0 <= k < out@.len() ==> out@[k] as char == spec_digit_char(d[k], upper) && out@[k]
                    < 128) by {
                assert(forall|k: int|
                    0 <= k < d.len() ==> d[k] == (if k < dold.len() {
                        dold[k]
                    } else {
                        p[k - dold.len()]
                    }));
            }
        }
    }
    proof {
        assert(w.skip(0) =~= w);
        lemma_msb_digits_unique(d, radix as nat);
        let total = le_val(w, rg);
        assert(d =~= msb_digits(total, radix as nat));
        assert(d == msb_digits(total, radix as nat));
        assert(out@.len() == msb_digits(total, radix as nat).len());
        assert(forall|k: int|
            0 <= k < out@.len() ==> out@[k] as char == spec_digit_char(
                msb_digits(total, radix as nat)[k],
                upper,
            ) && out@[k] < 128);
    }
    out
}

/// The digit bytes of a whole magnitude, most significant first.
fn magnitude_digit_bytes(m: &UBig, radix: u64, upper: bool) -> (r: Vec<u8>)
    requires
        m.wf(),
        radix_ok(radix as nat),
    ensures
        r@.len() == msb_digits(m@, radix as nat).len(),
        forall|i: int|
            0 <= i < r@.len() ==> r@[i] as char == spec_digit_char(
                msb_digits(m@, radix as nat)[i],
                upper,
            ) && r@[i] < 128,
{
    match &m.repr {
        crate::ubig::Repr::Small(word) => {
            proof {
                lemma_msb_pad_props(*word as nat, radix as nat, 1);
                lemma_msb_digits_correct(*word as nat, radix as nat);
                assert(msb_digits_pad(*word as nat, radix as nat, 1) =~= msb_digits(
                    *word as nat,
                    radix as nat,
                ));
            }
            word_digits(*word, radix, 1, upper)
        }
        crate::ubig::Repr::Large(buf) => {
            proof {
                m.lemma_large_is_big();
            }
            if radix == 2 || radix == 4 || radix == 16 {
                let g: usize = if radix == 2 {
                    64
                } else if radix == 4 {
                    32
                } else {
                    16
                };
                proof {
                    // radix^g is exactly the word base
                    vstd::arithmetic::power2::lemma_pow2(64);
                    vstd::arithmetic::power2::lemma_pow2(2);
                    vstd::arithmetic::power2::lemma_pow2(4);
                    vstd::arithmetic::power2::lemma2_to64();
                    vstd::arithmetic::power::lemma_pow_multiplies(2, 2, 32);
                    vstd::arithmetic::power::lemma_pow_multiplies(2, 4, 16);
                    assert(pow(radix as int, g as nat) == word_base());
                }
                let n = buf.len();
                let top = buf.get(n - 1);
                let mut groups: Vec<u64> = Vec::new();
                let mut i: usize = 0;
                while i < n - 1
                    invariant
                        n == buf@.len(),
                        n >= 2,
                        i <= n - 1,
                        groups@ == buf@.take(i as int),
                    decreases n - 1 - i,
                {
                    groups.push(buf.get(i));
                    proof {
                        assert(buf@.take(i + 1) =~= buf@.take(i as int).push(buf@[i as int]));
                    }
                    i = i + 1;
                }
                proof {
                    assert(nat_seq_u64(groups@).push(top as nat) =~= nat_seq_u64(buf@));
                    vstd::arithmetic::power2::lemma2_to64();
                }
                emit_groups(top, &groups, radix, g, upper, Ghost(word_base()))
            } else {
                let (g64, rgw) = radix_info(radix);
                let g = g64 as usize;
                proof {
                    vstd::arithmetic::power2::lemma2_to64();
                    // the group size of a word radix power is at most 64
                    crate::math::lemma_pow_base_le(2, radix as nat, g64 as nat);
                    vstd::arithmetic::power2::lemma_pow2(g64 as nat);
                    if g64 > 64 {
                        crate::primitive::lemma_pow2_le_connect(65, g64 as nat);
                        vstd::arithmetic::power2::lemma_pow2_strictly_increases(64, 65);
                        assert(false);
                    }
                }
                let mut cur: UBig = m.clone();
                let mut groups: Vec<u64> = Vec::new();
                proof {
                    vstd::arithmetic::power::lemma_pow0(rgw as int);
                    assert(nat_seq_u64(groups@) =~= Seq::<nat>::empty());
                    assert(le_val(Seq::<nat>::empty(), rgw as nat) == 0);
                    assert(m@ * 1 == m@) by (nonlinear_arith);
                    m.lemma_large_is_big();
                }
                while cur.num_words() > 1
                    invariant
                        cur.wf(),
                        rgw >= 2,
                        rgw as nat == pow(radix as int, g64 as nat),
                        m@ == cur@ * pow(rgw as int, groups@.len()) + le_val(
                            nat_seq_u64(groups@),
                            rgw as nat,
                        ),
                        forall|k: int| 0 <= k < groups@.len() ==> (groups@[k] as nat) < rgw as nat,
                        cur@ >= 1,
                    decreases cur@,
                {
                    proof {
                        cur.lemma_large_is_big();
                        vstd::arithmetic::power2::lemma2_to64();
                    }
                    let (q, rem) = cur.div_rem_word(rgw);
                    let ghost curv = cur@;
                    let ghost gsold = groups@;
                    groups.push(rem);
                    proof {
                        assert(nat_seq_u64(groups@) =~= nat_seq_u64(gsold).push(rem as nat));
                        lemma_le_val_push(nat_seq_u64(gsold), rem as nat, rgw as nat);
                        vstd::arithmetic::power::lemma_pow_adds(rgw as int, gsold.len(), 1);
                        vstd::arithmetic::power::lemma_pow1(rgw as int);
                        vstd::arithmetic::div_mod::lemma_fundamental_div_mod(
                            curv as int,
                            rgw as int,
                        );
                        vstd::arithmetic::power::lemma_pow_positive(rgw as int, gsold.len());
                        assert(m@ == q@ * pow(rgw as int, groups@.len()) + le_val(
                            nat_seq_u64(groups@),
                            rgw as nat,
                        )) by (nonlinear_arith)
                            requires
                                m@ == curv * pow(rgw as int, gsold.len()) + le_val(
                                    nat_seq_u64(gsold),
                                    rgw as nat,
                                ),
                                curv == rgw as nat * q@ + rem as nat,
                                le_val(nat_seq_u64(groups@), rgw as nat) == le_val(
                                    nat_seq_u64(gsold),
                                    rgw as nat,
                                ) + pow(rgw as int, gsold.len()) * (rem as nat),
                                pow(rgw as int, groups@.len()) == pow(rgw as int, gsold.len()) * (
                                rgw as nat),
                                groups@.len() == gsold.len() + 1,
                                pow(rgw as int, gsold.len()) >= 0,
                        ;
                        // the quotient stays positive while more than a word remains
                        assert(q@ >= 1) by (nonlinear_arith)
                            requires
                                curv == rgw as nat * q@ + rem as nat,
                                curv >= 0x10000000000000000,
                                (rem as nat) < rgw as nat,
                                rgw as nat <= 0xffffffffffffffff,
                        ;
                        vstd::arithmetic::div_mod::lemma_div_decreases(curv as int, rgw as int);
                    }
                    cur = q;
                }
                let top: u64 = match &cur.repr {
                    crate::ubig::Repr::Small(word) => *word,
                    crate::ubig::Repr::Large(_) => {
                        proof {
                            assert(false);
                        }
                        0
                    }
                };
                proof {
                    lemma_le_val_push(nat_seq_u64(groups@), top as nat, rgw as nat);
                    assert(le_val(nat_seq_u64(groups@).push(top as nat), rgw as nat) == m@)
                        by (nonlinear_arith)
                        requires
                            m@ == (top as nat) * pow(rgw as int, groups@.len()) + le_val(
                                nat_seq_u64(groups@),
                                rgw as nat,
                            ),
                            le_val(nat_seq_u64(groups@).push(top as nat), rgw as nat) == le_val(
                                nat_seq_u64(groups@),
                                rgw as nat,
                            ) + pow(rgw as int, groups@.len()) * (top as nat),
                    ;
                }
                emit_groups(top, &groups, radix, g, upper, Ghost(rgw as nat))
            }
        }
    }
}

/// A number prepared for display in a chosen radix: a sign, a borrowed
/// magnitude, and the radix.  The default formatting uses lower-case digit
/// letters; the formatting directives choose width, fill, alignment, plus
/// sign, zero padding and case.
pub struct InRadix<'a> {
    pub sign: Sign,
    pub magnitude: &'a UBig,
    pub radix: u32,
}

impl<'a> InRadix<'a> {
    pub open spec fn wf(&self) -> bool {
        &&& self.magnitude.wf()
        &&& radix_ok(self.radix as nat)
    }

    /// The formatted text under the given directives.
    #[verifier::rlimit(60)]
    pub fn format(&self, o: &FmtOptions) -> (r: String)
        requires
            self.wf(),
        ensures
            r@ == spec_format(self.sign is Negative, self.magnitude@, self.radix as nat, *o),
    {
        let digit_bytes = magnitude_digit_bytes(self.magnitude, self.radix as u64, o.upper);
        let ghost digits = spec_digits_string(self.magnitude@, self.radix as nat, o.upper);
        let neg = match self.sign {
            Sign::Negative => true,
            Sign::Positive => false,
        };
        let has_sign = neg || o.sign_plus;
        let ghost signseq: Seq<char> = if neg {
            seq!['-']
        } else if o.sign_plus {
            seq!['+']
        } else {
            Seq::<char>::empty()
        };
        let dstr = ascii_bytes_to_string(digit_bytes.as_slice());
        proof {
            assert(dstr@ =~= digits);
        }
        let dlen = digit_bytes.len();
        let plen = o.prefix.unicode_len();
        let body_len: u128 = dlen as u128 + plen as u128 + (if has_sign {
            1u128
        } else {
            0u128
        });
        let ghost body = signseq + o.prefix@ + digits;
        proof {
            assert(body.len() == body_len);
        }
        let mut s = String::new();
        if body_len >= o.width as u128 {
            if neg {
                push_char(&mut s, '-');
            } else if o.sign_plus {
                push_char(&mut s, '+');
            }
            proof {
                assert(s@ =~= signseq);
            }
            s.append(o.prefix);
            s.append(dstr.as_str());
            proof {
                assert(s@ =~= body);
            }
            s
        } else if o.zero_pad {
            if neg {
                push_char(&mut s, '-');
            } else if o.sign_plus {
                push_char(&mut s, '+');
            }
            proof {
                assert(s@ =~= signseq);
            }
            s.append(o.prefix);
            let pad = (o.width as u128 - body_len) as usize;
            let ghost before = s@;
            let mut k: usize = 0;
            while k < pad
                invariant
                    k <= pad,
                    s@ == before + fill_seq('0', k as nat),
                decreases pad - k,
            {
                push_char(&mut s, '0');
                proof {
                    assert(before + fill_seq('0', (k + 1) as nat) =~= (before + fill_seq(
                        '0',
                        k as nat,
                    )).push('0'));
                }
                k = k + 1;
            }
            s.append(dstr.as_str());
            proof {
                assert(s@ =~= signseq + o.prefix@ + fill_seq('0', pad as nat) + digits);
            }
            s
        } else {
            let pad = (o.width as u128 - body_len) as usize;
            let left: usize = match o.align {
                FmtAlign::Left => 0,
                FmtAlign::Center => pad / 2,
                FmtAlign::Right => pad,
            };
            let mut k: usize = 0;
            while k < left
                invariant
                    k <= left,
                    s@ == fill_seq(o.fill, k as nat),
                decreases left - k,
            {
                push_char(&mut s, o.fill);
                proof {
                    assert(fill_seq(o.fill, (k + 1) as nat) =~= fill_seq(o.fill, k as nat).push(
                        o.fill,
                    ));
                }
                k = k + 1;
            }
            if neg {
                push_char(&mut s, '-');
            } else if o.sign_plus {
                push_char(&mut s, '+');
            }
            proof {
                assert(s@ =~= fill_seq(o.fill, left as nat) + signseq);
            }
            s.append(o.prefix);
            s.append(dstr.as_str());
            let right = pad - left;
            let ghost before = s@;
            let mut k2: usize = 0;
            while k2 < right
                invariant
                    k2 <= right,
                    s@ == before + fill_seq(o.fill, k2 as nat),
                decreases right - k2,
            {
                push_char(&mut s, o.fill);
                proof {
                    assert(before + fill_seq(o.fill, (k2 + 1) as nat) =~= (before + fill_seq(
                        o.fill,
                        k2 as nat,
                    )).push(o.fill));
                }
                k2 = k2 + 1;
            }
            proof {
                assert(s@ =~= fill_seq(o.fill, left as nat) + body + fill_seq(
                    o.fill,
                    (pad - left) as nat,
                ));
            }
            s
        }
    }

    /// The plain digit string, lower case, with a `-` for negative values.
    pub fn to_str(&self) -> (r: String)
        requires
            self.wf(),
        ensures
            r@ == (if self.sign is Negative {
                seq!['-'] + spec_digits_string(self.magnitude@, self.radix as nat, false)
            } else {
                spec_digits_string(self.magnitude@, self.radix as nat, false)
            }),
    {
        let o = FmtOptions::new();
        let r = self.format(&o);
        proof {
            let digits = spec_digits_string(self.magnitude@, self.radix as nat, false);
            if self.sign is Negative {
            } else {
                assert(Seq::<char>::empty() + digits =~= digits);
            }
        }
        r
    }

    /// The digit string in upper case.
    pub fn to_str_uppercase(&self) -> (r: String)
        requires
            self.wf(),
        ensures
            r@ == (if self.sign is Negative {
                seq!['-'] + spec_digits_string(self.magnitude@, self.radix as nat, true)
            } else {
                spec_digits_string(self.magnitude@, self.radix as nat, true)
            }),
    {
        let mut o = FmtOptions::new();
        o.upper = true;
        let r = self.format(&o);
        proof {
            let digits = spec_digits_string(self.magnitude@, self.radix as nat, true);
            if self.sign is Negative {
            } else {
                assert(Seq::<char>::empty() + digits =~= digits);
            }
        }
        r
    }
}

impl UBig {
    /// Prepare the magnitude for display in the given radix.
    pub fn in_radix(&self, radix: u32) -> (r: InRadix<'_>)
        requires
            self.wf(),
            radix_ok(radix as nat),
        ensures
            r.wf(),
            r.sign is Positive,
            r.magnitude@ == self@,
            r.radix == radix,
    {
        InRadix { sign: Sign::Positive, magnitude: self, radix }
    }

    /// The number written in the given radix, lower-case digits.
    pub fn to_str_radix(&self, radix: u32) -> (r: String)
        requires
            self.wf(),
            radix_ok(radix as nat),
        ensures
            r@ == spec_digits_string(self@, radix as nat, false),
    {
        self.in_radix(radix).to_str()
    }

    /// The number written in the given radix, upper-case digits.
    pub fn to_str_radix_uppercase(&self, radix: u32) -> (r: String)
        requires
            self.wf(),
            radix_ok(radix as nat),
        ensures
            r@ == spec_digits_string(self@, radix as nat, true),
    {
        self.in_radix(radix).to_str_uppercase()
    }
}

impl IBig {
    /// Prepare the signed number for display in the given radix.
    pub fn in_radix(&self, radix: u32) -> (r: InRadix<'_>)
        requires
            self.wf(),
            radix_ok(radix as nat),
        ensures
            r.wf(),
            (r.sign is Negative) == (self@ < 0),
            r.magnitude@ as int == (if self@ >= 0 {
                self@
            } else {
                -self@
            }),
            r.radix == radix,
    {
        InRadix { sign: self.sign(), magnitude: self.magnitude(), radix }
    }

    /// The signed number written in the given radix, lower-case digits.
    pub fn to_str_radix(&self, radix: u32) -> (r: String)
        requires
            self.wf(),
            radix_ok(radix as nat),
        ensures
            r@ == (if self@ < 0 {
                seq!['-'] + spec_digits_string((-self@) as nat, radix as nat, false)
            } else {
                spec_digits_string(self@ as nat, radix as nat, false)
            }),
    {
        self.in_radix(radix).to_str()
    }

    /// The signed number written in the given radix, upper-case digits.
    pub fn to_str_radix_uppercase(&self, radix: u32) -> (r: String)
        requires
            self.wf(),
            radix_ok(radix as nat),
        ensures
            r@ == (if self@ < 0 {
                seq!['-'] + spec_digits_string((-self@) as nat, radix as nat, true)
            } else {
                spec_digits_string(self@ as nat, radix as nat, true)
            }),
    {
        self.in_radix(radix).to_str_uppercase()
    }
}
} // verus!
