//! Modular arithmetic: a preallocated ring that carries a normalized
//! modulus `m' = m << s`, with `s` chosen so the bit length of `m'` is a
//! whole number of words, and ring elements stored as `(value mod m) << s`.
//! A small ring keeps everything in one word; a large ring stores each
//! element as exactly as many words as its normalized modulus, zero-padded
//! on top.  Elements borrow their ring, and two elements combine only
//! within one ring: the contracts demand it, so mixing rings is excluded
//! statically rather than aborting at run time.

use vstd::prelude::*;
use vstd::arithmetic::power::pow;
use vstd::arithmetic::power2::pow2;
use vstd::arithmetic::power2::lemma_pow2_pos;
use vstd::arithmetic::power2::lemma_pow2_adds;
use vstd::arithmetic::power2::lemma2_to64;
use vstd::arithmetic::div_mod::lemma_fundamental_div_mod;
use vstd::arithmetic::div_mod::lemma_fundamental_div_mod_converse;
use vstd::arithmetic::div_mod::lemma_mod_bound;
use vstd::arithmetic::div_mod::lemma_mul_mod_noop_general;
use crate::math::lemma_mod_scale;
use crate::math::lemma_div_exact;
use crate::math::lemma_neg_mod;
use crate::primitive::Word;
use crate::primitive::word_base;
use crate::primitive::pow2_word;
use crate::sign::Sign;
use crate::ubig::UBig;
use crate::ibig::IBig;
use crate::MAX_CAPACITY;

verus! {

/// A ring whose normalized modulus fits one word.
pub struct ModuloRingSmall {
    pub normalized_modulus: u64,
    pub shift: u32,
}

/// A ring whose normalized modulus spans several words.
pub struct ModuloRingLarge {
    pub normalized_modulus: UBig,
    pub shift: u32,
}

pub enum ModuloRingRepr {
    Small(ModuloRingSmall),
    Large(ModuloRingLarge),
}

/// A modular ring: the modulus record every element of the ring shares.
pub struct ModuloRing {
    pub repr: ModuloRingRepr,
}

impl ModuloRingSmall {
    pub open spec fn wf(&self) -> bool {
        &&& (self.shift as nat) < 64
        &&& self.normalized_modulus as nat % pow2(self.shift as nat) == 0
        &&& self.normalized_modulus as nat / pow2(self.shift as nat) >= 2
    }

    /// The true modulus: the normalized modulus shifted back down.
    pub open spec fn spec_modulus(&self) -> nat {
        self.normalized_modulus as nat / pow2(self.shift as nat)
    }

    pub open spec fn spec_nm(&self) -> nat {
        self.normalized_modulus as nat
    }
}

impl ModuloRingLarge {
    pub open spec fn wf(&self) -> bool {
        &&& self.normalized_modulus.wf()
        &&& (self.shift as nat) < 64
        &&& self.normalized_modulus@ % pow2(self.shift as nat) == 0
        &&& self.normalized_modulus@ / pow2(self.shift as nat) >= 2
        &&& self.normalized_modulus@ >= word_base()
        &&& 2 * self.normalized_modulus.spec_num_words() + 6 <= MAX_CAPACITY
    }

    pub open spec fn spec_modulus(&self) -> nat {
        self.normalized_modulus@ / pow2(self.shift as nat)
    }

    pub open spec fn spec_nm(&self) -> nat {
        self.normalized_modulus@
    }

    /// The width of the ring: the word count of the normalized modulus,
    /// which every stored element occupies exactly.
    pub open spec fn spec_width(&self) -> nat {
        self.normalized_modulus.spec_num_words()
    }
}

impl ModuloRing {
    pub open spec fn wf(&self) -> bool {
        match self.repr {
            ModuloRingRepr::Small(ref r) => r.wf(),
            ModuloRingRepr::Large(ref r) => r.wf(),
        }
    }

    /// The ring modulus as a number.
    pub open spec fn spec_modulus(&self) -> nat {
        match self.repr {
            ModuloRingRepr::Small(ref r) => r.spec_modulus(),
            ModuloRingRepr::Large(ref r) => r.spec_modulus(),
        }
    }

    /// Create the ring of integers modulo `m`; `m` must be at least two.
    pub fn new(m: &UBig) -> (r: ModuloRing)
        requires
            m.wf(),
            m@ >= 2,
            2 * m.spec_num_words() + 8 <= MAX_CAPACITY,
        ensures
            r.wf(),
            r.spec_modulus() == m@,
    {
        let bits = m.bit_len();
        let s: u64 = (64 - bits % 64) % 64;
        proof {
            lemma_fundamental_div_mod(bits as int, 64);
            lemma_mod_bound(bits as int, 64);
            lemma_mod_bound((64 - bits as int % 64), 64);
        }
        proof {
            vstd::arithmetic::div_mod::lemma_basic_div(s as int, 64);
        }
        let shifted = m.shl(s as usize);
        proof {
            lemma_pow2_pos(s as nat);
            // the shifted modulus is divisible by 2^s and shifts back to m
            lemma_mod_scale(m@, 1, pow2(s as nat));
            assert(m@ * pow2(s as nat) % (1 * pow2(s as nat)) == (m@ % 1) * pow2(s as nat));
            assert(1 * pow2(s as nat) == pow2(s as nat));
            assert(m@ % 1 == 0) by {
                lemma_fundamental_div_mod(m@ as int, 1);
            }
            assert(0 * pow2(s as nat) == 0) by (nonlinear_arith);
            assert(m@ * pow2(s as nat) / (1 * pow2(s as nat)) == m@ / 1);
            assert(m@ / 1 == m@) by {
                vstd::arithmetic::div_mod::lemma_div_basics(m@ as int);
            }
        }
        if shifted.num_words() == 1 {
            let w = match &shifted.repr {
                crate::ubig::Repr::Small(word) => *word,
                crate::ubig::Repr::Large(_) => {
                    proof {
                        assert(false);
                    }
                    0
                }
            };
            ModuloRing { repr: ModuloRingRepr::Small(ModuloRingSmall {
                normalized_modulus: w,
                shift: s as u32,
            }) }
        } else {
            proof {
                shifted.lemma_large_is_big();
                shifted.lemma_value_bound();
                // the shifted modulus keeps the word count of the modulus
                assert(shifted@ < pow2(64 * (m.spec_num_words() + 1))) by {
                    m.lemma_value_bound();
                    vstd::arithmetic::power2::lemma_pow2_strictly_increases(s as nat, 64);
                    crate::primitive::lemma_prod_fits(
                        m@,
                        pow2(s as nat),
                        m.spec_num_words(),
                        1,
                    );
                    crate::primitive::lemma_mul_bound(
                        m@,
                        pow2(64 * m.spec_num_words()),
                        pow2(s as nat) + 1,
                        pow2(64) + 1,
                    );
                    assert(m@ * pow2(s as nat) <= m@ * (pow2(s as nat) + 1) - m@)
                        by (nonlinear_arith);
                    lemma_pow2_adds(64 * m.spec_num_words(), 64);
                    assert((pow2(64 * m.spec_num_words()) + 1) * (pow2(64) + 1) == pow2(
                        64 * m.spec_num_words(),
                    ) * pow2(64) + pow2(64 * m.spec_num_words()) + pow2(64) + 1)
                        by (nonlinear_arith);
                    lemma_pow2_pos(64 * m.spec_num_words());
                    lemma_pow2_pos(64);
                    crate::primitive::lemma_pow2_le_connect(
                        64 * m.spec_num_words(),
                        64 * m.spec_num_words() + 64,
                    );
                    crate::primitive::lemma_pow2_le_connect(64, 64 * m.spec_num_words() + 64);
                    crate::primitive::lemma_pow2_le_connect(
                        64 * m.spec_num_words() + 64,
                        64 * (m.spec_num_words() + 1),
                    );
                }
                shifted.lemma_num_words_le(m.spec_num_words() + 1);
            }
            ModuloRing { repr: ModuloRingRepr::Large(ModuloRingLarge {
                normalized_modulus: shifted,
                shift: s as u32,
            }) }
        }
    }

    /// The ring modulus.
    pub fn modulus(&self) -> (r: UBig)
        requires
            self.wf(),
        ensures
            r.wf(),
            r@ == self.spec_modulus(),
    {
        match &self.repr {
            ModuloRingRepr::Small(ring) => {
                let p = pow2_word(ring.shift as u64);
                proof {
                    lemma_pow2_pos(ring.shift as nat);
                }
                UBig::from_word(ring.normalized_modulus / p)
            }
            ModuloRingRepr::Large(ring) => ring.normalized_modulus.shr(ring.shift as usize),
        }
    }
}

pub enum ModuloRepr<'a> {
    Small(ModuloSmall<'a>),
    Large(ModuloLarge<'a>),
}

/// An element of a small ring: one normalized word.
pub struct ModuloSmall<'a> {
    pub ring: &'a ModuloRingSmall,
    pub normalized_value: u64,
}

/// An element of a large ring: the normalized value held as exactly as
/// many words as the normalized modulus, zero-padded on top.
pub struct ModuloLarge<'a> {
    pub ring: &'a ModuloRingLarge,
    pub normalized_value: Vec<Word>,
}

/// A residue in a modular ring, stored in normalized form.
pub struct Modulo<'a> {
    pub repr: ModuloRepr<'a>,
}

impl<'a> Modulo<'a> {
    pub open spec fn wf(&self) -> bool {
        match self.repr {
            ModuloRepr::Small(ref e) => e.ring.wf() && (e.normalized_value as nat)
                < e.ring.spec_nm() && e.normalized_value as nat % pow2(e.ring.shift as nat) == 0,
            ModuloRepr::Large(ref e) => e.ring.wf() && e.normalized_value@.len()
                == e.ring.spec_width() && crate::primitive::words_val(e.normalized_value@)
                < e.ring.spec_nm() && crate::primitive::words_val(e.normalized_value@) % pow2(
                e.ring.shift as nat,
            ) == 0,
        }
    }

    /// The residue the element stands for, in `0 .. modulus`.
    pub open spec fn spec_residue(&self) -> nat {
        match self.repr {
            ModuloRepr::Small(ref e) => e.normalized_value as nat / pow2(e.ring.shift as nat),
            ModuloRepr::Large(ref e) => crate::primitive::words_val(e.normalized_value@) / pow2(
                e.ring.shift as nat,
            ),
        }
    }

    /// The modulus of the ring the element belongs to.
    pub open spec fn spec_modulus(&self) -> nat {
        match self.repr {
            ModuloRepr::Small(ref e) => e.ring.spec_modulus(),
            ModuloRepr::Large(ref e) => e.ring.spec_modulus(),
        }
    }

    /// Two elements belong to the same ring record.
    ///
    /// Every operation that combines two elements requires this, so mixing
    /// rings is excluded at verification time rather than detected at run
    /// time: an unverified caller that breaks the precondition gets no
    /// abort, and rings are told apart by the contents of their modulus
    /// record, not by address, so two separately built rings with one
    /// modulus count as the same ring here.
    pub open spec fn same_ring(&self, other: &Modulo<'a>) -> bool {
        match (&self.repr, &other.repr) {
            (ModuloRepr::Small(ref a), ModuloRepr::Small(ref b)) => a.ring == b.ring,
            (ModuloRepr::Large(ref a), ModuloRepr::Large(ref b)) => a.ring == b.ring,
            _ => false,
        }
    }
}


impl ModuloRingSmall {
    /// The true modulus as a word.
    pub fn modulus(&self) -> (r: u64)
        requires
            self.wf(),
        ensures
            r as nat == self.spec_modulus(),
    {
        let p = pow2_word(self.shift as u64);
        proof {
            lemma_pow2_pos(self.shift as nat);
        }
        self.normalized_modulus / p
    }

    /// Reduce a single word into normalized form: `(w mod m) << s`.
    pub(crate) fn normalize_word(&self, w: u64) -> (r: u64)
        requires
            self.wf(),
        ensures
            r as nat == (w as nat % self.spec_modulus()) * pow2(self.shift as nat),
            (r as nat) < self.spec_nm(),
            r as nat % pow2(self.shift as nat) == 0,
    {
        let p = pow2_word(self.shift as u64);
        proof {
            lemma_pow2_pos(self.shift as nat);
            vstd::arithmetic::power2::lemma_pow2_strictly_increases(self.shift as nat, 64);
            lemma2_to64();
            crate::primitive::lemma_mul_bound(
                w as nat,
                word_base(),
                pow2(self.shift as nat),
                word_base(),
            );
            lemma_pow2_adds(64, 64);
            crate::primitive::lemma_word_base_value();
            lemma_div_exact(self.spec_nm(), pow2(self.shift as nat));
            lemma_mod_scale(w as nat, self.spec_modulus(), pow2(self.shift as nat));
            lemma_mod_bound(
                w as int,
                self.spec_modulus() as int,
            );
            crate::primitive::lemma_mul_bound(
                w as nat % self.spec_modulus(),
                self.spec_modulus(),
                pow2(self.shift as nat),
                pow2(self.shift as nat) + 1,
            );
            crate::math::lemma_mul_cancel(
                w as nat % self.spec_modulus(),
                pow2(self.shift as nat),
            );
        }
        let t: u128 = (w as u128) * (p as u128);
        let r = (t % (self.normalized_modulus as u128)) as u64;
        proof {
            // t mod nm == (w mod m) * 2^s, already below nm
            let m = self.spec_modulus();
            let c = pow2(self.shift as nat);
            assert(m == self.spec_nm() / c);
            assert(self.spec_nm() == m * c) by (nonlinear_arith)
                requires (self.spec_nm() / c) * c == self.spec_nm() && m == self.spec_nm() / c;
            assert(t as nat == (w as nat) * c);
            lemma_mod_scale(w as nat, m, c);
            assert(((w as nat) * c) % (m * c) == (w as nat % m) * c);
            assert(t as nat % self.spec_nm() == (w as nat % m) * c) by (nonlinear_arith)
                requires
                    t as nat == (w as nat) * c,
                    self.spec_nm() == m * c,
                    ((w as nat) * c) % (m * c) == ((w as nat) % m) * c,
            ;
            lemma_mod_bound(w as int, m as int);
            lemma_pow2_pos(self.shift as nat);
            assert((w as nat % m) * c < m * c) by (nonlinear_arith)
                requires 0 <= (w as nat % m) < m && c >= 1 && m >= 1;
        }
        r
    }

    /// Reduce a word buffer into normalized form: `(value mod m) << s`.
    pub(crate) fn normalize_large(&self, words: &[Word]) -> (r: u64)
        requires
            self.wf(),
        ensures
            r as nat == (crate::primitive::words_val(words@) % self.spec_modulus()) * pow2(
                self.shift as nat,
            ),
            (r as nat) < self.spec_nm(),
            r as nat % pow2(self.shift as nat) == 0,
    {
        proof {
            lemma_pow2_pos(self.shift as nat);
            lemma_div_exact(self.spec_nm(), pow2(self.shift as nat));
        }
        let (_q, rem) = crate::div::div_rem_words_by_word(words, self.normalized_modulus);
        let ghost v = crate::primitive::words_val(words@);
        proof {
            vstd::arithmetic::div_mod::lemma_fundamental_div_mod_converse(
                v as int,
                self.spec_nm() as int,
                crate::primitive::words_val(_q@) as int,
                rem as int,
            );
            // v mod (m 2^s) mod m == v mod m
            vstd::arithmetic::div_mod::lemma_mod_mod(
                v as int,
                self.spec_modulus() as int,
                pow2(self.shift as nat) as int,
            );
        }
        self.normalize_word(rem)
    }
}

impl ModuloRingLarge {
    /// Reduce a magnitude into normalized form: `(value mod m) << s`.
    pub(crate) fn normalize_ubig(&self, x: &UBig) -> (r: UBig)
        requires
            self.wf(),
            x.wf(),
            x.spec_num_words() + 4 <= MAX_CAPACITY,
        ensures
            r.wf(),
            r@ == (x@ % self.spec_modulus()) * pow2(self.shift as nat),
            r@ < self.spec_nm(),
            r@ % pow2(self.shift as nat) == 0,
            r.spec_num_words() <= self.normalized_modulus.spec_num_words(),
    {
        proof {
            lemma_pow2_pos(self.shift as nat);
            lemma_div_exact(self.spec_nm(), pow2(self.shift as nat));
        }
        proof {
            vstd::arithmetic::div_mod::lemma_basic_div(self.shift as int, 64);
        }
        let shifted = x.shl(self.shift as usize);
        proof {
            self.normalized_modulus.lemma_value_bound();
            x.lemma_value_bound();
            vstd::arithmetic::power2::lemma_pow2_strictly_increases(self.shift as nat, 64);
            crate::primitive::lemma_prod_fits(
                x@,
                pow2(self.shift as nat),
                x.spec_num_words(),
                1,
            );
            shifted.lemma_num_words_le(x.spec_num_words() + 1);
        }
        let (_q, rem) = shifted.div_rem(&self.normalized_modulus);
        proof {
            let m = self.spec_modulus();
            let c = pow2(self.shift as nat);
            assert(m == self.spec_nm() / c);
            assert(self.spec_nm() == m * c) by (nonlinear_arith)
                requires (self.spec_nm() / c) * c == self.spec_nm() && m == self.spec_nm() / c;
            assert(shifted@ == x@ * c);
            lemma_mod_scale(x@, m, c);
            assert(shifted@ % self.spec_nm() == (x@ % m) * c) by (nonlinear_arith)
                requires
                    shifted@ == x@ * c,
                    self.spec_nm() == m * c,
                    (x@ * c) % (m * c) == (x@ % m) * c,
            ;
            lemma_mod_bound(x@ as int, m as int);
            lemma_pow2_pos(self.shift as nat);
            assert((x@ % m) * c < m * c) by (nonlinear_arith)
                requires 0 <= (x@ % m) < m && c >= 1 && m >= 1;
            crate::math::lemma_mul_cancel(x@ % m, c);
            rem.lemma_num_words_le(self.normalized_modulus.spec_num_words());
        }
        rem
    }

    /// The ring width as an executable count.
    pub(crate) fn width(&self) -> (n: usize)
        requires
            self.wf(),
        ensures
            n == self.spec_width(),
    {
        self.normalized_modulus.num_words()
    }

    /// Lay a reduced value out at exactly the ring width, zero-padded on
    /// top: the storage form of every element of the ring.
    pub(crate) fn pad_value(&self, v: &UBig) -> (r: Vec<Word>)
        requires
            self.wf(),
            v.wf(),
            v@ < self.spec_nm(),
        ensures
            r@.len() == self.spec_width(),
            crate::primitive::words_val(r@) == v@,
    {
        proof {
            self.normalized_modulus.lemma_value_bound();
            v.lemma_num_words_le(self.spec_width());
        }
        let n = self.width();
        let mut out = v.to_word_vec();
        while out.len() < n
            invariant
                out@.len() <= n,
                crate::primitive::words_val(out@) == v@,
            decreases n - out@.len(),
        {
            let ghost outold = out@;
            out.push(0);
            proof {
                crate::primitive::lemma_words_val_push(outold, 0);
                assert(pow2(64 * outold.len()) * (0u64 as nat) == 0) by (nonlinear_arith);
            }
        }
        out
    }
}

/// A magnitude from a bare word buffer; the way element words reenter the
/// verified arithmetic.
fn ubig_of_words(words: &[Word]) -> (r: UBig)
    requires
        words@.len() <= MAX_CAPACITY,
    ensures
        r.wf(),
        r@ == crate::primitive::words_val(words@),
        r.spec_num_words() <= words@.len() || r.spec_num_words() == 1,
{
    let mut buf = crate::buffer::Buffer::allocate(words.len());
    buf.extend(words);
    proof {
        assert(buf@ =~= words@);
    }
    UBig::from_buffer(buf)
}

impl<'a> Modulo<'a> {
    /// The residue in `0 .. modulus`, as a magnitude.
    pub fn residue(&self) -> (r: UBig)
        requires
            self.wf(),
        ensures
            r.wf(),
            r@ == self.spec_residue(),
    {
        match &self.repr {
            ModuloRepr::Small(e) => {
                let p = pow2_word(e.ring.shift as u64);
                proof {
                    lemma_pow2_pos(e.ring.shift as nat);
                }
                UBig::from_word(e.normalized_value / p)
            }
            ModuloRepr::Large(e) => {
                proof {
                    e.ring.normalized_modulus.lemma_value_bound();
                }
                let v = ubig_of_words(e.normalized_value.as_slice());
                v.shr(e.ring.shift as usize)
            }
        }
    }

    /// Modular addition within one ring.
    pub fn add_mod(&self, other: &Modulo<'a>) -> (r: Modulo<'a>)
        requires
            self.wf(),
            other.wf(),
            self.same_ring(other),
        ensures
            r.wf(),
            r.same_ring(self),
            r.spec_residue() == (self.spec_residue() + other.spec_residue())
                % self.spec_modulus(),
    {
        match (&self.repr, &other.repr) {
            (ModuloRepr::Small(a), ModuloRepr::Small(b)) => {
                let ghost m = a.ring.spec_modulus();
                let ghost c = pow2(a.ring.shift as nat);
                proof {
                    lemma_pow2_pos(a.ring.shift as nat);
                    lemma_div_exact(a.ring.spec_nm(), c);
                    lemma_div_exact(a.normalized_value as nat, c);
                    lemma_div_exact(b.normalized_value as nat, c);
                }
                let t: u128 = a.normalized_value as u128 + b.normalized_value as u128;
                let nm = a.ring.normalized_modulus as u128;
                let v: u64 = if t >= nm {
                    (t - nm) as u64
                } else {
                    t as u64
                };
                proof {
                    lemma_residue_add(
                        a.normalized_value as nat,
                        b.normalized_value as nat,
                        v as nat,
                        m,
                        c,
                    );
                }
                Modulo { repr: ModuloRepr::Small(ModuloSmall { ring: a.ring, normalized_value: v }) }
            }
            (ModuloRepr::Large(a), ModuloRepr::Large(b)) => {
                let ghost m = a.ring.spec_modulus();
                let ghost c = pow2(a.ring.shift as nat);
                proof {
                    lemma_pow2_pos(a.ring.shift as nat);
                    lemma_div_exact(a.ring.spec_nm(), c);
                    lemma_div_exact(crate::primitive::words_val(a.normalized_value@), c);
                    lemma_div_exact(crate::primitive::words_val(b.normalized_value@), c);
                    a.ring.normalized_modulus.lemma_value_bound();
                }
                let av = ubig_of_words(a.normalized_value.as_slice());
                let bv = ubig_of_words(b.normalized_value.as_slice());
                proof {
                    av.lemma_num_words_le(a.ring.spec_width());
                    bv.lemma_num_words_le(a.ring.spec_width());
                }
                let t = av.add_ubig(&bv);
                let v: UBig = if t.lt(&a.ring.normalized_modulus) {
                    t
                } else {
                    t.sub_ubig(&a.ring.normalized_modulus)
                };
                proof {
                    lemma_residue_add(
                        crate::primitive::words_val(a.normalized_value@),
                        crate::primitive::words_val(b.normalized_value@),
                        v@,
                        m,
                        c,
                    );
                }
                Modulo { repr: ModuloRepr::Large(ModuloLarge {
                    ring: a.ring,
                    normalized_value: a.ring.pad_value(&v),
                }) }
            }
            (ModuloRepr::Small(a), ModuloRepr::Large(_)) => {
                proof {
                    assert(false);
                }
                Modulo { repr: ModuloRepr::Small(ModuloSmall { ring: a.ring, normalized_value: 0 }) }
            }
            (ModuloRepr::Large(a), ModuloRepr::Small(_)) => {
                proof {
                    assert(false);
                }
                Modulo { repr: ModuloRepr::Large(ModuloLarge {
                    ring: a.ring,
                    normalized_value: Vec::new(),
                }) }
            }
        }
    }
}

/// The shared argument of normalized addition: with `nm == m c`,
/// `va == ra c`, `vb == rb c` and the conditional subtraction of `nm`, the
/// result is `((ra + rb) mod m) c`.
proof fn lemma_residue_add(va: nat, vb: nat, v: nat, m: nat, c: nat)
    requires
        m >= 2,
        c >= 1,
        va % c == 0,
        vb % c == 0,
        va < m * c,
        vb < m * c,
        v == (if va + vb >= m * c {
            (va + vb - m * c) as nat
        } else {
            va + vb
        }),
    ensures
        v / c == (va / c + vb / c) % m,
        v % c == 0,
        v < m * c,
{
    let ra = va / c;
    let rb = vb / c;
    lemma_div_exact(va, c);
    lemma_div_exact(vb, c);
    assert(ra < m && rb < m) by (nonlinear_arith)
        requires ra * c == va && rb * c == vb && va < m * c && vb < m * c && c >= 1 && ra >= 0
            && rb >= 0;
    assert(va + vb == (ra + rb) * c) by (nonlinear_arith)
        requires va == ra * c && vb == rb * c;
    if va + vb >= m * c {
        assert(v == (ra + rb - m) * c) by (nonlinear_arith)
            requires va + vb == (ra + rb) * c && v == va + vb - m * c;
        assert(ra + rb - m >= 0) by (nonlinear_arith)
            requires (ra + rb) * c >= m * c && c >= 1 && ra + rb >= 0;
        crate::math::lemma_mul_cancel((ra + rb - m) as nat, c);
        assert((ra + rb) == 1 * m + (ra + rb - m)) by (nonlinear_arith);
        lemma_fundamental_div_mod_converse(
            (ra + rb) as int,
            m as int,
            1,
            (ra + rb - m) as int,
        );
        assert(v < m * c) by (nonlinear_arith)
            requires v == (ra + rb - m) * c && ra + rb - m < m && c >= 1 && ra + rb - m >= 0;
    } else {
        crate::math::lemma_mul_cancel((ra + rb) as nat, c);
        assert(ra + rb < m) by (nonlinear_arith)
            requires (ra + rb) * c < m * c && c >= 1 && ra + rb >= 0;
        assert((ra + rb) == 0 * m + (ra + rb)) by (nonlinear_arith);
        lemma_fundamental_div_mod_converse((ra + rb) as int, m as int, 0, (ra + rb) as int);
    }
}


/// The shared argument of normalized subtraction.
proof fn lemma_residue_sub(va: nat, vb: nat, v: nat, m: nat, c: nat)
    requires
        m >= 2,
        c >= 1,
        va % c == 0,
        vb % c == 0,
        va < m * c,
        vb < m * c,
        v == (if va >= vb {
            (va - vb) as nat
        } else {
            (va + m * c - vb) as nat
        }),
    ensures
        (v / c) as int == ((va / c) as int - (vb / c) as int) % (m as int),
        v % c == 0,
        v < m * c,
{
    let ra = va / c;
    let rb = vb / c;
    crate::math::lemma_div_exact(va, c);
    crate::math::lemma_div_exact(vb, c);
    assert(ra < m && rb < m) by (nonlinear_arith)
        requires ra * c == va && rb * c == vb && va < m * c && vb < m * c && c >= 1 && ra >= 0
            && rb >= 0;
    if va >= vb {
        assert(v == (ra - rb) * c) by (nonlinear_arith)
            requires va == ra * c && vb == rb * c && v == va - vb;
        assert(ra - rb >= 0) by (nonlinear_arith)
            requires ra * c >= rb * c && c >= 1;
        crate::math::lemma_mul_cancel((ra - rb) as nat, c);
        assert(ra - rb == 0 * m + (ra - rb)) by (nonlinear_arith);
        lemma_fundamental_div_mod_converse((ra - rb) as int, m as int, 0, (ra - rb) as int);
        assert(v < m * c) by (nonlinear_arith)
            requires v == (ra - rb) * c && 0 <= ra - rb < m && c >= 1;
    } else {
        assert(v == (ra - rb + m) * c) by (nonlinear_arith)
            requires va == ra * c && vb == rb * c && v == va + m * c - vb;
        assert(ra - rb + m >= 1) by (nonlinear_arith)
            requires ra * c < rb * c && c >= 1 && rb < m && ra >= 0;
        crate::math::lemma_mul_cancel((ra - rb + m) as nat, c);
        assert(ra - rb == (-1) * m + (ra - rb + m)) by (nonlinear_arith);
        assert(ra - rb + m < m) by (nonlinear_arith)
            requires ra * c < rb * c && c >= 1;
        lemma_fundamental_div_mod_converse(
            ra as int - rb as int,
            m as int,
            -1,
            ra as int - rb as int + m as int,
        );
        assert(v < m * c) by (nonlinear_arith)
            requires v == (ra - rb + m) * c && 0 <= ra - rb + m < m && c >= 1;
        assert(ra - rb + m < m) by (nonlinear_arith)
            requires ra < rb;
    }
}

/// The shared argument of normalized negation.
proof fn lemma_residue_neg(va: nat, v: nat, m: nat, c: nat)
    requires
        m >= 2,
        c >= 1,
        va % c == 0,
        va < m * c,
        v == (if va == 0 {
            0nat
        } else {
            (m * c - va) as nat
        }),
    ensures
        (v / c) as int == (-((va / c) as int)) % (m as int),
        v % c == 0,
        v < m * c,
{
    let ra = va / c;
    crate::math::lemma_div_exact(va, c);
    assert(ra < m) by (nonlinear_arith)
        requires ra * c == va && va < m * c && c >= 1 && ra >= 0;
    crate::math::lemma_neg_mod(ra as int, m as int);
    assert(ra == 0 * m + ra) by (nonlinear_arith);
    lemma_fundamental_div_mod_converse(ra as int, m as int, 0, ra as int);
    if va == 0 {
        assert(ra == 0) by (nonlinear_arith)
            requires ra * c == 0 && c >= 1 && ra >= 0;
        assert((v / c) as int == 0) by {
            vstd::arithmetic::div_mod::lemma_basic_div(v as int, c as int);
        }
        assert(m - 0 == 1 * m + 0) by (nonlinear_arith);
        lemma_fundamental_div_mod_converse(m as int, m as int, 1, 0);
        assert(v % c == 0) by {
            vstd::arithmetic::div_mod::lemma_small_mod(0, c);
        }
        assert(0 < m * c) by (nonlinear_arith)
            requires m >= 2 && c >= 1;
    } else {
        assert(ra >= 1) by (nonlinear_arith)
            requires ra * c == va && va > 0 && c >= 1;
        assert(v == (m - ra) * c) by (nonlinear_arith)
            requires va == ra * c && v == m * c - va;
        crate::math::lemma_mul_cancel((m - ra) as nat, c);
        assert(m - ra == 0 * m + (m - ra)) by (nonlinear_arith);
        lemma_fundamental_div_mod_converse((m - ra) as int, m as int, 0, (m - ra) as int);
        assert(v < m * c) by (nonlinear_arith)
            requires v == (m - ra) * c && 1 <= ra && m - ra < m && c >= 1 && m - ra >= 0;
    }
}

/// The shared argument of normalized multiplication: the product of one
/// residue with the other normalized value, reduced by the normalized
/// modulus.
proof fn lemma_residue_mul(va: nat, vb: nat, v: nat, m: nat, c: nat)
    requires
        m >= 2,
        c >= 1,
        va % c == 0,
        vb % c == 0,
        va < m * c,
        vb < m * c,
        v == ((va / c) * vb) % (m * c),
    ensures
        v / c == ((va / c) * (vb / c)) % m,
        v % c == 0,
        v < m * c,
{
    let ra = va / c;
    let rb = vb / c;
    crate::math::lemma_div_exact(va, c);
    crate::math::lemma_div_exact(vb, c);
    assert(ra * vb == (ra * rb) * c) by (nonlinear_arith)
        requires vb == rb * c;
    crate::math::lemma_mod_scale(ra * rb, m, c);
    crate::math::lemma_mul_cancel((ra * rb) % m, c);
    lemma_mod_bound((ra * rb) as int, m as int);
    assert(((ra * rb) % m) * c < m * c) by (nonlinear_arith)
        requires 0 <= (ra * rb) % m < m && c >= 1 && m >= 1;
}

impl<'a> Modulo<'a> {
    /// The element lives in this ring record.
    pub open spec fn in_ring(&self, ring: &ModuloRing) -> bool {
        match (&self.repr, &ring.repr) {
            (ModuloRepr::Small(ref e), ModuloRingRepr::Small(ref r)) => e.ring == r,
            (ModuloRepr::Large(ref e), ModuloRingRepr::Large(ref r)) => e.ring == r,
            _ => false,
        }
    }

    /// Modular subtraction within one ring.
    pub fn sub_mod(&self, other: &Modulo<'a>) -> (r: Modulo<'a>)
        requires
            self.wf(),
            other.wf(),
            self.same_ring(other),
        ensures
            r.wf(),
            r.same_ring(self),
            r.spec_residue() as int == (self.spec_residue() - other.spec_residue()) % (
            self.spec_modulus() as int),
    {
        match (&self.repr, &other.repr) {
            (ModuloRepr::Small(a), ModuloRepr::Small(b)) => {
                let ghost m = a.ring.spec_modulus();
                let ghost c = pow2(a.ring.shift as nat);
                proof {
                    lemma_pow2_pos(a.ring.shift as nat);
                    lemma_div_exact(a.ring.spec_nm(), c);
                }
                let v: u64 = if a.normalized_value >= b.normalized_value {
                    a.normalized_value - b.normalized_value
                } else {
                    (a.normalized_value as u128 + a.ring.normalized_modulus as u128
                        - b.normalized_value as u128) as u64
                };
                proof {
                    lemma_residue_sub(
                        a.normalized_value as nat,
                        b.normalized_value as nat,
                        v as nat,
                        m,
                        c,
                    );
                }
                Modulo { repr: ModuloRepr::Small(ModuloSmall { ring: a.ring, normalized_value: v }) }
            }
            (ModuloRepr::Large(a), ModuloRepr::Large(b)) => {
                let ghost m = a.ring.spec_modulus();
                let ghost c = pow2(a.ring.shift as nat);
                proof {
                    lemma_pow2_pos(a.ring.shift as nat);
                    lemma_div_exact(a.ring.spec_nm(), c);
                    a.ring.normalized_modulus.lemma_value_bound();
                }
                let av = ubig_of_words(a.normalized_value.as_slice());
                let bv = ubig_of_words(b.normalized_value.as_slice());
                proof {
                    av.lemma_num_words_le(a.ring.spec_width());
                    bv.lemma_num_words_le(a.ring.spec_width());
                }
                let v: UBig = if !av.lt(&bv) {
                    av.sub_ubig(&bv)
                } else {
                    av.add_ubig(&a.ring.normalized_modulus).sub_ubig(&bv)
                };
                proof {
                    lemma_residue_sub(
                        crate::primitive::words_val(a.normalized_value@),
                        crate::primitive::words_val(b.normalized_value@),
                        v@,
                        m,
                        c,
                    );
                }
                Modulo { repr: ModuloRepr::Large(ModuloLarge {
                    ring: a.ring,
                    normalized_value: a.ring.pad_value(&v),
                }) }
            }
            (ModuloRepr::Small(a), ModuloRepr::Large(_)) => {
                proof {
                    assert(false);
                }
                Modulo { repr: ModuloRepr::Small(ModuloSmall { ring: a.ring, normalized_value: 0 }) }
            }
            (ModuloRepr::Large(a), ModuloRepr::Small(_)) => {
                proof {
                    assert(false);
                }
                Modulo { repr: ModuloRepr::Large(ModuloLarge {
                    ring: a.ring,
                    normalized_value: Vec::new(),
                }) }
            }
        }
    }

    /// Modular negation.
    pub fn neg_mod(&self) -> (r: Modulo<'a>)
        requires
            self.wf(),
        ensures
            r.wf(),
            r.same_ring(self),
            r.spec_residue() as int == (-(self.spec_residue() as int)) % (
            self.spec_modulus() as int),
    {
        match &self.repr {
            ModuloRepr::Small(a) => {
                let ghost m = a.ring.spec_modulus();
                let ghost c = pow2(a.ring.shift as nat);
                proof {
                    lemma_pow2_pos(a.ring.shift as nat);
                    lemma_div_exact(a.ring.spec_nm(), c);
                }
                let v: u64 = if a.normalized_value == 0 {
                    0
                } else {
                    a.ring.normalized_modulus - a.normalized_value
                };
                proof {
                    lemma_residue_neg(a.normalized_value as nat, v as nat, m, c);
                }
                Modulo { repr: ModuloRepr::Small(ModuloSmall { ring: a.ring, normalized_value: v }) }
            }
            ModuloRepr::Large(a) => {
                let ghost m = a.ring.spec_modulus();
                let ghost c = pow2(a.ring.shift as nat);
                proof {
                    lemma_pow2_pos(a.ring.shift as nat);
                    lemma_div_exact(a.ring.spec_nm(), c);
                    a.ring.normalized_modulus.lemma_value_bound();
                }
                let av = ubig_of_words(a.normalized_value.as_slice());
                proof {
                    av.lemma_num_words_le(a.ring.spec_width());
                }
                let v: UBig = if av.is_zero() {
                    UBig::from_word(0)
                } else {
                    a.ring.normalized_modulus.sub_ubig(&av)
                };
                proof {
                    lemma_residue_neg(crate::primitive::words_val(a.normalized_value@), v@, m, c);
                }
                Modulo { repr: ModuloRepr::Large(ModuloLarge {
                    ring: a.ring,
                    normalized_value: a.ring.pad_value(&v),
                }) }
            }
        }
    }

    /// Modular multiplication within one ring.
    pub fn mul_mod(&self, other: &Modulo<'a>) -> (r: Modulo<'a>)
        requires
            self.wf(),
            other.wf(),
            self.same_ring(other),
        ensures
            r.wf(),
            r.same_ring(self),
            r.spec_residue() == (self.spec_residue() * other.spec_residue())
                % self.spec_modulus(),
    {
        match (&self.repr, &other.repr) {
            (ModuloRepr::Small(a), ModuloRepr::Small(b)) => {
                let ghost m = a.ring.spec_modulus();
                let ghost c = pow2(a.ring.shift as nat);
                proof {
                    lemma_pow2_pos(a.ring.shift as nat);
                    lemma_div_exact(a.ring.spec_nm(), c);
                    vstd::arithmetic::power2::lemma_pow2_strictly_increases(
                        a.ring.shift as nat,
                        64,
                    );
                    lemma2_to64();
                    crate::primitive::lemma_word_base_value();
                }
                let p = pow2_word(a.ring.shift as u64);
                let ra: u64 = a.normalized_value / p;
                proof {
                    crate::primitive::lemma_mul_bound(
                        ra as nat,
                        word_base(),
                        b.normalized_value as nat,
                        word_base(),
                    );
                    lemma_pow2_adds(64, 64);
                    assert(a.ring.normalized_modulus >= 1) by (nonlinear_arith)
                        requires m * c == a.ring.normalized_modulus as nat && m >= 2 && c >= 1;
                }
                let t: u128 = (ra as u128) * (b.normalized_value as u128);
                let v = (t % (a.ring.normalized_modulus as u128)) as u64;
                proof {
                    lemma_residue_mul(
                        a.normalized_value as nat,
                        b.normalized_value as nat,
                        v as nat,
                        m,
                        c,
                    );
                }
                Modulo { repr: ModuloRepr::Small(ModuloSmall { ring: a.ring, normalized_value: v }) }
            }
            (ModuloRepr::Large(a), ModuloRepr::Large(b)) => {
                let ghost m = a.ring.spec_modulus();
                let ghost c = pow2(a.ring.shift as nat);
                proof {
                    lemma_pow2_pos(a.ring.shift as nat);
                    lemma_div_exact(a.ring.spec_nm(), c);
                    a.ring.normalized_modulus.lemma_value_bound();
                }
                let av = ubig_of_words(a.normalized_value.as_slice());
                let bv = ubig_of_words(b.normalized_value.as_slice());
                proof {
                    av.lemma_num_words_le(a.ring.spec_width());
                    bv.lemma_num_words_le(a.ring.spec_width());
                }
                let ra = av.shr(a.ring.shift as usize);
                let prod = ra.mul_ubig(&bv);
                proof {
                    // the product stays within twice the modulus word count
                    crate::primitive::lemma_prod_fits(
                        ra@,
                        bv@,
                        a.ring.normalized_modulus.spec_num_words(),
                        a.ring.normalized_modulus.spec_num_words(),
                    );
                    prod.lemma_num_words_le(
                        2 * a.ring.normalized_modulus.spec_num_words(),
                    );
                    ra.lemma_value_bound();
                    crate::primitive::lemma_pow2_le_connect(
                        64 * ra.spec_num_words(),
                        64 * a.ring.normalized_modulus.spec_num_words(),
                    );
                }
                let (_q, v) = prod.div_rem(&a.ring.normalized_modulus);
                proof {
                    lemma_residue_mul(
                        crate::primitive::words_val(a.normalized_value@),
                        crate::primitive::words_val(b.normalized_value@),
                        v@,
                        m,
                        c,
                    );
                }
                Modulo { repr: ModuloRepr::Large(ModuloLarge {
                    ring: a.ring,
                    normalized_value: a.ring.pad_value(&v),
                }) }
            }
            (ModuloRepr::Small(a), ModuloRepr::Large(_)) => {
                proof {
                    assert(false);
                }
                Modulo { repr: ModuloRepr::Small(ModuloSmall { ring: a.ring, normalized_value: 0 }) }
            }
            (ModuloRepr::Large(a), ModuloRepr::Small(_)) => {
                proof {
                    assert(false);
                }
                Modulo { repr: ModuloRepr::Large(ModuloLarge {
                    ring: a.ring,
                    normalized_value: Vec::new(),
                }) }
            }
        }
    }
}

impl<'a> Modulo<'a> {
    /// The residue is always below the modulus.
    pub proof fn lemma_residue_bound(&self)
        requires
            self.wf(),
        ensures
            self.spec_residue() < self.spec_modulus(),
    {
        match self.repr {
            ModuloRepr::Small(ref e) => {
                let c = pow2(e.ring.shift as nat);
                lemma_pow2_pos(e.ring.shift as nat);
                lemma_div_exact(e.ring.spec_nm(), c);
                lemma_div_exact(e.normalized_value as nat, c);
                assert(e.normalized_value as nat / c < e.ring.spec_modulus())
                    by (nonlinear_arith)
                    requires
                        (e.normalized_value as nat / c) * c == e.normalized_value as nat,
                        (e.ring.spec_modulus() * c) == e.ring.spec_nm(),
                        (e.normalized_value as nat) < e.ring.spec_nm(),
                        c >= 1,
                        e.normalized_value as nat / c >= 0,
                ;
            }
            ModuloRepr::Large(ref e) => {
                let c = pow2(e.ring.shift as nat);
                let v = crate::primitive::words_val(e.normalized_value@);
                lemma_pow2_pos(e.ring.shift as nat);
                lemma_div_exact(e.ring.spec_nm(), c);
                lemma_div_exact(v, c);
                assert(v / c < e.ring.spec_modulus()) by (nonlinear_arith)
                    requires
                        (v / c) * c == v,
                        (e.ring.spec_modulus() * c) == e.ring.spec_nm(),
                        v < e.ring.spec_nm(),
                        c >= 1,
                        v / c >= 0,
                ;
            }
        }
    }

    /// The element standing for one in the same ring.
    fn one_like(&self) -> (r: Modulo<'a>)
        requires
            self.wf(),
        ensures
            r.wf(),
            r.same_ring(self),
            r.spec_residue() == 1,
    {
        match &self.repr {
            ModuloRepr::Small(e) => {
                let ghost m = e.ring.spec_modulus();
                let ghost c = pow2(e.ring.shift as nat);
                let p = pow2_word(e.ring.shift as u64);
                proof {
                    lemma_pow2_pos(e.ring.shift as nat);
                    lemma_div_exact(e.ring.spec_nm(), c);
                    assert(c < e.ring.spec_nm()) by (nonlinear_arith)
                        requires m * c == e.ring.spec_nm() && m >= 2 && c >= 1;
                    crate::math::lemma_mul_cancel(1, c);
                    assert(1 * c == c) by (nonlinear_arith);
                }
                Modulo { repr: ModuloRepr::Small(ModuloSmall { ring: e.ring, normalized_value: p }) }
            }
            ModuloRepr::Large(e) => {
                let ghost m = e.ring.spec_modulus();
                let ghost c = pow2(e.ring.shift as nat);
                let p = pow2_word(e.ring.shift as u64);
                proof {
                    lemma_pow2_pos(e.ring.shift as nat);
                    lemma_div_exact(e.ring.spec_nm(), c);
                    assert(c < e.ring.spec_nm()) by (nonlinear_arith)
                        requires m * c == e.ring.spec_nm() && m >= 2 && c >= 1;
                    crate::math::lemma_mul_cancel(1, c);
                    assert(1 * c == c) by (nonlinear_arith);
                }
                let one = UBig::from_word(p);
                Modulo { repr: ModuloRepr::Large(ModuloLarge {
                    ring: e.ring,
                    normalized_value: e.ring.pad_value(&one),
                }) }
            }
        }
    }

    /// Modular exponentiation: square and multiply over the bits of the
    /// exponent, most significant first.
    pub fn pow_mod(&self, exp: &UBig) -> (r: Modulo<'a>)
        requires
            self.wf(),
            exp.wf(),
        ensures
            r.wf(),
            r.same_ring(self),
            r.spec_residue() as int == pow(self.spec_residue() as int, exp@) % (
            self.spec_modulus() as int),
    {
        let ew = exp.to_word_vec();
        let nbits = exp.bit_len();
        let mut res = self.one_like();
        let mut k: u64 = nbits;
        let ghost a = self.spec_residue() as int;
        let ghost m = self.spec_modulus() as int;
        proof {
            lemma_pow2_pos(nbits as nat);
            vstd::arithmetic::div_mod::lemma_multiply_divide_lt(
                exp@ as int,
                pow2(nbits as nat) as int,
                1,
            );
            assert(pow2(nbits as nat) * 1 == pow2(nbits as nat));
            vstd::arithmetic::power::lemma_pow0(a);
            self.lemma_residue_bound();
            vstd::arithmetic::div_mod::lemma_small_mod(1, self.spec_modulus());
        }
        while k > 0
            invariant
                k <= nbits,
                nbits as nat <= 64 * exp.spec_num_words(),
                exp.wf(),
                self.wf(),
                ew@.len() == exp.spec_num_words(),
                crate::primitive::words_val(ew@) == exp@,
                a == self.spec_residue() as int,
                m == self.spec_modulus() as int,
                m >= 2,
                res.wf(),
                res.same_ring(self),
                res.spec_residue() as int == pow(a, exp@ / pow2(k as nat)) % m,
            decreases k,
        {
            k = k - 1;
            let j: usize = (k / 64) as usize;
            let b: u64 = k % 64;
            proof {
                vstd::arithmetic::div_mod::lemma_fundamental_div_mod(k as int, 64);
                vstd::arithmetic::div_mod::lemma_multiply_divide_lt(
                    k as int,
                    64,
                    ew@.len() as int,
                );
            }
            let wj = ew[j];
            let pb = pow2_word(b);
            proof {
                lemma_pow2_pos(b as nat);
            }
            let bitv: u64 = (wj / pb) % 2;
            proof {
                crate::div::lemma_bit_from_words(ew@, k as nat);
            }
            let ghost q = exp@ / pow2((k + 1) as nat);
            proof {
                lemma_pow2_pos(k as nat);
                vstd::arithmetic::div_mod::lemma_div_denominator(
                    exp@ as int,
                    pow2(k as nat) as int,
                    2,
                );
                lemma_pow2_adds(k as nat, 1);
                lemma2_to64();
                assert(pow2(k as nat) * 2 == pow2((k + 1) as nat));
                vstd::arithmetic::div_mod::lemma_fundamental_div_mod(
                    exp@ as int / pow2(k as nat) as int,
                    2,
                );
            }
            let sq = res.mul_mod(&res);
            proof {
                // the square advances the exponent by doubling
                lemma_mul_mod_noop_general(pow(a, q as nat), pow(a, q as nat), m);
                vstd::arithmetic::power::lemma_pow_adds(a, q as nat, q as nat);
                assert(sq.spec_residue() as int == pow(a, (2 * q) as nat) % m);
            }
            if bitv == 1 {
                proof {
                    self.lemma_residue_bound();
                    vstd::arithmetic::div_mod::lemma_small_mod(
                        self.spec_residue(),
                        self.spec_modulus(),
                    );
                }
                let stepped = sq.mul_mod(self);
                proof {
                    lemma_mul_mod_noop_general(pow(a, (2 * q) as nat), a, m);
                    vstd::arithmetic::power::lemma_pow_adds(a, (2 * q) as nat, 1);
                    vstd::arithmetic::power::lemma_pow1(a);
                    assert(stepped.spec_residue() as int == pow(a, (2 * q + 1) as nat) % m);
                    assert(exp@ / pow2(k as nat) == 2 * q + 1);
                }
                res = stepped;
            } else {
                proof {
                    assert(exp@ / pow2(k as nat) == 2 * q);
                }
                res = sq;
            }
        }
        proof {
            lemma2_to64();
            assert(pow2(0) == 1);
            assert(exp@ / 1 == exp@) by {
                vstd::arithmetic::div_mod::lemma_div_basics(exp@ as int);
            }
        }
        res
    }
}

/// Types whose values can enter a modular ring.  The residue of the made
/// element is the value reduced into `0 .. modulus`, with negative values
/// reduced the mathematical way.
pub trait IntoModulo {
    /// The integer the value stands for.
    spec fn into_val(&self) -> int;

    /// The value is in shape to be reduced: well formed and within the
    /// capacity cap.
    spec fn into_ok(&self) -> bool;

    fn into_modulo<'a>(self, ring: &'a ModuloRing) -> (r: Modulo<'a>)
        requires
            ring.wf(),
            self.into_ok(),
        ensures
            r.wf(),
            r.in_ring(ring),
            r.spec_residue() as int == self.into_val() % (ring.spec_modulus() as int),
    ;
}

impl IntoModulo for &UBig {
    open spec fn into_val(&self) -> int {
        self@ as int
    }

    open spec fn into_ok(&self) -> bool {
        self.wf() && self.spec_num_words() + 4 <= MAX_CAPACITY
    }

    fn into_modulo<'a>(self, ring: &'a ModuloRing) -> (r: Modulo<'a>)
    {
        match &ring.repr {
            ModuloRingRepr::Small(rs) => {
                let v = match &self.repr {
                    crate::ubig::Repr::Small(w) => rs.normalize_word(*w),
                    crate::ubig::Repr::Large(buf) => rs.normalize_large(buf.as_slice()),
                };
                proof {
                    let c = pow2(rs.shift as nat);
                    lemma_pow2_pos(rs.shift as nat);
                    crate::math::lemma_mul_cancel(self@ % rs.spec_modulus(), c);
                }
                Modulo { repr: ModuloRepr::Small(ModuloSmall { ring: rs, normalized_value: v }) }
            }
            ModuloRingRepr::Large(rl) => {
                let v = rl.normalize_ubig(self);
                proof {
                    let c = pow2(rl.shift as nat);
                    lemma_pow2_pos(rl.shift as nat);
                    crate::math::lemma_mul_cancel(self@ % rl.spec_modulus(), c);
                }
                Modulo { repr: ModuloRepr::Large(ModuloLarge {
                    ring: rl,
                    normalized_value: rl.pad_value(&v),
                }) }
            }
        }
    }
}

impl IntoModulo for UBig {
    open spec fn into_val(&self) -> int {
        self@ as int
    }

    open spec fn into_ok(&self) -> bool {
        self.wf() && self.spec_num_words() + 4 <= MAX_CAPACITY
    }

    fn into_modulo<'a>(self, ring: &'a ModuloRing) -> (r: Modulo<'a>)
    {
        (&self).into_modulo(ring)
    }
}

impl IntoModulo for &IBig {
    open spec fn into_val(&self) -> int {
        self@
    }

    open spec fn into_ok(&self) -> bool {
        self.wf() && self.spec_num_words() + 4 <= MAX_CAPACITY
    }

    fn into_modulo<'a>(self, ring: &'a ModuloRing) -> (r: Modulo<'a>)
    {
        let e = self.magnitude().into_modulo(ring);
        match self.sign() {
            Sign::Positive => e,
            Sign::Negative => {
                let n = e.neg_mod();
                proof {
                    let m = ring.spec_modulus() as int;
                    let mag = self.magnitude@ as int;
                    // (-(mag % m)) % m == (-mag) % m
                    crate::math::lemma_neg_mod(mag, m);
                    lemma_mod_bound(mag, m);
                    crate::math::lemma_neg_mod(mag % m, m);
                    vstd::arithmetic::div_mod::lemma_small_mod((mag % m) as nat, m as nat);
                }
                n
            }
        }
    }
}

impl IntoModulo for IBig {
    open spec fn into_val(&self) -> int {
        self@
    }

    open spec fn into_ok(&self) -> bool {
        self.wf() && self.spec_num_words() + 4 <= MAX_CAPACITY
    }

    fn into_modulo<'a>(self, ring: &'a ModuloRing) -> (r: Modulo<'a>)
    {
        (&self).into_modulo(ring)
    }
}

impl IntoModulo for u64 {
    open spec fn into_val(&self) -> int {
        *self as int
    }

    open spec fn into_ok(&self) -> bool {
        true
    }

    fn into_modulo<'a>(self, ring: &'a ModuloRing) -> (r: Modulo<'a>)
    {
        UBig::from_word(self).into_modulo(ring)
    }
}

impl IntoModulo for i64 {
    open spec fn into_val(&self) -> int {
        *self as int
    }

    open spec fn into_ok(&self) -> bool {
        true
    }

    fn into_modulo<'a>(self, ring: &'a ModuloRing) -> (r: Modulo<'a>)
    {
        IBig::from_i128(self as i128).into_modulo(ring)
    }
}

impl ModuloRing {
    /// Create an element of the ring from another type.
    pub fn from<T: IntoModulo>(&self, x: T) -> (r: Modulo<'_>)
        requires
            self.wf(),
            x.into_ok(),
        ensures
            r.wf(),
            r.in_ring(self),
            r.spec_residue() as int == x.into_val() % (self.spec_modulus() as int),
    {
        x.into_modulo(self)
    }
}

impl<'a> Modulo<'a> {
    /// Modular squaring: the element times itself.
    pub fn square_mod(&self) -> (r: Modulo<'a>)
        requires
            self.wf(),
        ensures
            r.wf(),
            r.same_ring(self),
            r.spec_residue() == (self.spec_residue() * self.spec_residue())
                % self.spec_modulus(),
    {
        self.mul_mod(self)
    }
}

/// Word-for-word equality of two element buffers.
fn element_words_eq(a: &[Word], b: &[Word]) -> (r: bool)
    ensures
        r == (a@ == b@),
{
    let n = a.len();
    if n != b.len() {
        proof {
            assert(a@ != b@);
        }
        return false;
    }
    let mut i: usize = 0;
    let mut eq = true;
    while i < n
        invariant
            i <= n,
            n == a@.len() == b@.len(),
            eq == (forall|j: int| 0 <= j < i ==> a@[j] == b@[j]),
        decreases n - i,
    {
        if a[i] != b[i] {
            eq = false;
        }
        i = i + 1;
    }
    proof {
        if eq {
            assert(a@ =~= b@);
        }
    }
    eq
}

impl<'a> PartialEq for Modulo<'a> {
    /// Two elements are equal when they carry the same normalized value in
    /// the same kind of ring; within one ring this is equality of residues.
    fn eq(&self, other: &Modulo<'a>) -> (r: bool)
    {
        match (&self.repr, &other.repr) {
            (ModuloRepr::Small(a), ModuloRepr::Small(b)) => a.normalized_value
                == b.normalized_value && a.ring.normalized_modulus == b.ring.normalized_modulus
                && a.ring.shift == b.ring.shift,
            (ModuloRepr::Large(a), ModuloRepr::Large(b)) => element_words_eq(
                a.normalized_value.as_slice(),
                b.normalized_value.as_slice(),
            ) && a.ring.normalized_modulus == b.ring.normalized_modulus && a.ring.shift
                == b.ring.shift,
            _ => false,
        }
    }
}

impl<'a> Eq for Modulo<'a> {}

impl<'a> vstd::std_specs::cmp::PartialEqSpecImpl for Modulo<'a> {
    open spec fn obeys_eq_spec() -> bool {
        true
    }

    open spec fn eq_spec(&self, other: &Modulo<'a>) -> bool {
        match (&self.repr, &other.repr) {
            (ModuloRepr::Small(ref a), ModuloRepr::Small(ref b)) => a.normalized_value
                == b.normalized_value && a.ring.normalized_modulus == b.ring.normalized_modulus
                && a.ring.shift == b.ring.shift,
            (ModuloRepr::Large(ref a), ModuloRepr::Large(ref b)) => a.normalized_value@
                == b.normalized_value@ && a.ring.normalized_modulus.same_repr(
                &b.ring.normalized_modulus,
            ) && a.ring.shift == b.ring.shift,
            _ => false,
        }
    }
}
} // verus!
