//! Signed Q128.128 fixed-point numbers, as the market contracts hold them.

use vstd::prelude::*;
use vstd::arithmetic::power2::*;
use crate::binary64::{
    greater, law_product_exact, law_quotient_exact, law_sum_grows, law_whole_exact,
    lemma_rounded_max, opposite, product, quotient, signed, sum, unsigned, whole, Binary64,
};
use crate::rounding::{
    exponent, law_rounding_is_monotonic, lemma_held, lemma_pow2_le, lemma_rounded_exact,
    lemma_rounded_scale, lemma_units_increase, lemma_units_parts, power_of_two, rounded,
    significand, units,
};

verus! {

/// A fixed-point number: four limbs of magnitude, lowest first, and a sign.
#[derive(Debug, Clone, Copy, PartialEq, Eq, Structural)]
pub struct Sq128 {
    /// Bits 0 to 63 of the magnitude.
    pub limb0: u64,
    /// Bits 64 to 127 of the magnitude.
    pub limb1: u64,
    /// Bits 128 to 191 of the magnitude.
    pub limb2: u64,
    /// Bits 192 to 255 of the magnitude.
    pub limb3: u64,
    /// Whether the number is below zero.
    pub neg: bool,
}

/// Why a binary64 has no fixed-point counterpart.
#[derive(Debug, Clone, Copy, PartialEq, Eq, Structural)]
pub enum FixedPointError {
    /// It is an infinity or no number.
    NotFinite,
    /// It is `2^128` or more away from zero.
    Overflow,
}

impl Sq128 {
    /// The magnitude, in units of `2^-128`.
    pub open spec fn magnitude(self) -> nat {
        self.limb0 as nat + limb_base() * (self.limb1 as nat + limb_base() * (self.limb2 as nat
            + limb_base() * (self.limb3 as nat)))
    }

    /// Whether the number is below zero; a zero with a sign is not.
    pub open spec fn is_negative(self) -> bool {
        self.neg && self.magnitude() > 0
    }

    /// The same number, with no sign on a zero.
    pub open spec fn canonical(self) -> Sq128 {
        Sq128 { neg: self.is_negative(), ..self }
    }
}

/// What one unit of a limb is worth in units of the limb below: `2^64`.
pub open spec fn limb_base() -> nat {
    0x1_0000_0000_0000_0000
}

/// The fixed-point number of the given sign and magnitude.
pub open spec fn fixed(negative: bool, m: nat) -> Sq128 {
    Sq128 {
        limb0: (m % limb_base()) as u64,
        limb1: (m / limb_base() % limb_base()) as u64,
        limb2: (m / limb_base() / limb_base() % limb_base()) as u64,
        limb3: (m / limb_base() / limb_base() / limb_base() % limb_base()) as u64,
        neg: negative && m > 0,
    }
}

/// What is left of `x` when all bits below `2^-128` are cut off.
pub open spec fn truncated(x: Binary64) -> Sq128 {
    fixed(x.is_negative(), units(x.magnitude()) * pow2(128) / pow2(1074))
}

/// Whether `x` is below `2^128` in magnitude.
pub open spec fn in_range(x: Binary64) -> bool {
    units(x.magnitude()) < pow2(1074 + 128)
}

/// The fixed-point number for `x`, or why there is none.
pub open spec fn fixed_point(x: Binary64) -> Result<Sq128, FixedPointError> {
    if !x.is_finite() {
        Err(FixedPointError::NotFinite)
    } else if !in_range(x) {
        Err(FixedPointError::Overflow)
    } else {
        Ok(truncated(x))
    }
}

/// `2^64`.
pub open spec fn two_to_the_64() -> Binary64 {
    Binary64 { bits: 0x43f0_0000_0000_0000 }
}

/// `2^128`.
pub open spec fn two_to_the_128() -> Binary64 {
    Binary64 { bits: 0x47f0_0000_0000_0000 }
}

/// The binary64 that stands for `q`: the limbs, each rounded and scaled, are
/// added up from the lowest; the highest limb comes last.
pub open spec fn approximation(q: Sq128) -> Binary64 {
    let fraction = sum(
        quotient(whole(q.limb0 as nat), two_to_the_128()),
        quotient(whole(q.limb1 as nat), two_to_the_64()),
    );
    let low = sum(fraction, whole(q.limb2 as nat));
    let magnitude = sum(product(whole(q.limb3 as nat), two_to_the_64()), low);
    if q.neg {
        opposite(magnitude)
    } else {
        magnitude
    }
}

/// A limb and what is above it are read back from the whole.
proof fn lemma_limb(low: nat, high: nat)
    requires
        low < limb_base(),
    ensures
        (low + limb_base() * high) % limb_base() == low,
        (low + limb_base() * high) / limb_base() == high,
{
    let b = limb_base();
    assert(low + b * high == high * b + low);
    vstd::arithmetic::div_mod::lemma_fundamental_div_mod_converse(
        (low + b * high) as int,
        b as int,
        high as int,
        low as int,
    );
}

/// Limbs are read back from the magnitude that they make up.
pub proof fn lemma_fixed_limbs(q: Sq128)
    ensures
        fixed(q.neg, q.magnitude()) == q.canonical(),
{
    let h2 = q.limb2 as nat + limb_base() * (q.limb3 as nat);
    let h1 = q.limb1 as nat + limb_base() * h2;
    lemma_limb(q.limb0 as nat, h1);
    lemma_limb(q.limb1 as nat, h2);
    lemma_limb(q.limb2 as nat, q.limb3 as nat);
    lemma_limb(q.limb3 as nat, 0);
}

impl Sq128 {
    /// The fixed-point number for `x`, cut off below `2^-128`.
    pub fn from_binary64(x: Binary64) -> (r: Result<Self, FixedPointError>)
        ensures
            r == fixed_point(x),
    {
        if !x.finite() {
            return Err(FixedPointError::NotFinite);
        }
        let (sig, exp) = x.split();
        let negative: bool = x.sign();
        let ghost m: nat = x.magnitude();
        proof {
            lemma_units_parts(m);
            lemma_pow2_pos(exp as nat);
            lemma2_to64();
            lemma2_to64_rest();
        }
        if exp >= 1150 {
            proof {
                lemma_pow2_adds(52, 1150);
                lemma_pow2_le(1150, exp as nat);
                assert(sig * pow2(exp as nat) >= pow2(52) * pow2(1150)) by (nonlinear_arith)
                    requires
                        sig >= pow2(52),
                        pow2(exp as nat) >= pow2(1150),
                ;
            }
            return Err(FixedPointError::Overflow);
        }
        proof {
            lemma_pow2_adds(53, exp as nat);
            lemma_pow2_le((53 + exp) as nat, 1074 + 128);
            assert(sig * pow2(exp as nat) < pow2(53) * pow2(exp as nat)) by (nonlinear_arith)
                requires
                    sig < pow2(53),
                    pow2(exp as nat) > 0,
            ;
            assert(in_range(x));
        }
        let ghost cut: nat = units(m) * pow2(128) / pow2(1074);
        proof {
            lemma_pow2_adds(exp as nat, 128);
            assert(units(m) * pow2(128) == sig as nat * pow2((exp + 128) as nat)) by (nonlinear_arith)
                requires
                    units(m) == sig as nat * pow2(exp as nat),
                    pow2((exp + 128) as nat) == pow2(exp as nat) * pow2(128),
            ;
            lemma_pow2_pos(1074);
        }
        if exp < 946 {
            let down: u64 = 946 - exp;
            proof {
                // The number is below one, and only its lowest limb can be set.
                lemma_pow2_pos(down as nat);
                lemma_pow2_pos((exp + 128) as nat);
                lemma_pow2_adds(down as nat, (exp + 128) as nat);
                lemma_cancel(sig as nat, pow2(down as nat), pow2((exp + 128) as nat));
                if down >= 64 {
                    lemma_pow2_le(64, down as nat);
                    vstd::arithmetic::div_mod::lemma_basic_div(sig as int, pow2(down as nat) as int);
                } else {
                    lemma_pow2_strictly_increases(down as nat, 64);
                }
            }
            let limb0: u64 = if down < 64 {
                sig / power_of_two(down) as u64
            } else {
                0
            };
            let q: Self = Sq128 { limb0, limb1: 0, limb2: 0, limb3: 0, neg: negative && limb0 > 0 };
            proof {
                assert(q.magnitude() == cut);
                lemma_fixed_limbs(Sq128 { neg: negative, ..q });
            }
            Ok(q)
        } else {
            let up: u64 = exp - 946;
            let place: u64 = up / 64;
            let offset: u64 = up % 64;
            let p: u128 = power_of_two(offset);
            proof {
                lemma_pow2_adds(up as nat, 1074);
                lemma_pow2_adds(offset as nat, (64 * place) as nat);
                lemma_pow2_strictly_increases(offset as nat, 64);
                assert(sig as nat * p < 0x0020_0000_0000_0000 * 0x1_0000_0000_0000_0000) by (nonlinear_arith)
                    requires
                        sig < 0x0020_0000_0000_0000,
                        p < 0x1_0000_0000_0000_0000,
                ;
                assert(units(m) * pow2(128) == (sig as nat * pow2(up as nat)) * pow2(1074))
                    by (nonlinear_arith)
                    requires
                        units(m) * pow2(128) == sig as nat * (pow2(up as nat) * pow2(1074)),
                ;
                lemma_cancel((sig as nat * pow2(up as nat)) as nat, 1, pow2(1074));
                assert(1 * pow2(1074) == pow2(1074));
                vstd::arithmetic::div_mod::lemma_div_basics((sig as nat * pow2(up as nat)) as int);
                assert(cut == (sig as nat * p) * pow2((64 * place) as nat)) by (nonlinear_arith)
                    requires
                        cut == sig as nat * (p * pow2((64 * place) as nat)),
                ;
            }
            let wide: u128 = sig as u128 * p;
            let low: u64 = (wide % 0x1_0000_0000_0000_0000) as u64;
            let high: u64 = (wide / 0x1_0000_0000_0000_0000) as u64;
            let ghost b = limb_base();
            proof {
                lemma_pow2_limbs(place as nat);
                assert(wide == low as nat + b * (high as nat));
                if place == 3 {
                    assert(offset <= 11);
                    lemma_pow2_le(offset as nat, 11);
                    assert(sig as nat * p < 0x1_0000_0000_0000_0000) by (nonlinear_arith)
                        requires
                            sig < 0x0020_0000_0000_0000,
                            p <= 0x800,
                    ;
                    assert(high == 0);
                }
            }
            let q: Self = if place == 0 {
                Sq128 { limb0: low, limb1: high, limb2: 0, limb3: 0, neg: negative && wide > 0 }
            } else if place == 1 {
                Sq128 { limb0: 0, limb1: low, limb2: high, limb3: 0, neg: negative && wide > 0 }
            } else if place == 2 {
                Sq128 { limb0: 0, limb1: 0, limb2: low, limb3: high, neg: negative && wide > 0 }
            } else {
                Sq128 { limb0: 0, limb1: 0, limb2: 0, limb3: low, neg: negative && wide > 0 }
            };
            proof {
                let w = wide as nat;
                assert(w * 1 == w && w * b == b * w && w * (b * b) == b * (b * w) && w * (b * b * b) == b * (b * (b
                    * w))) by (nonlinear_arith);
                assert(q.magnitude() == cut);
                lemma_fixed_limbs(Sq128 { neg: negative, ..q });
            }
            Ok(q)
        }
    }

    /// The binary64 that stands for this number.
    pub fn to_binary64(self) -> (r: Binary64)
        ensures
            r == approximation(self),
    {
        let two64: Binary64 = Binary64 { bits: 0x43f0_0000_0000_0000 };
        let two128: Binary64 = Binary64 { bits: 0x47f0_0000_0000_0000 };
        let fraction: Binary64 = Binary64::from_u64(self.limb0).over(two128).plus(
            Binary64::from_u64(self.limb1).over(two64),
        );
        let low: Binary64 = fraction.plus(Binary64::from_u64(self.limb2));
        let magnitude: Binary64 = Binary64::from_u64(self.limb3).times(two64).plus(low);
        if self.neg {
            magnitude.negated()
        } else {
            magnitude
        }
    }
}

/// The magnitude that limbs were taken from is read back from them.
pub proof fn lemma_fixed_magnitude(negative: bool, m: nat)
    requires
        m < limb_base() * limb_base() * limb_base() * limb_base(),
    ensures
        fixed(negative, m).magnitude() == m,
{
    let b = limb_base();
    let m1 = m / b;
    let m2 = m1 / b;
    let m3 = m2 / b;
    vstd::arithmetic::div_mod::lemma_fundamental_div_mod(m as int, b as int);
    vstd::arithmetic::div_mod::lemma_fundamental_div_mod(m1 as int, b as int);
    vstd::arithmetic::div_mod::lemma_fundamental_div_mod(m2 as int, b as int);
    assert(m3 < b);
    vstd::arithmetic::div_mod::lemma_small_mod(m3, b);
}

/// A binary64 cut to fixed point stays a good way below `2^128`.
pub proof fn lemma_truncated_magnitude(x: Binary64)
    requires
        x.is_finite(),
        in_range(x),
    ensures
        truncated(x).magnitude() == units(x.magnitude()) * pow2(128) / pow2(1074),
        truncated(x).magnitude()
            <= 0xffff_ffff_ffff_f800_0000_0000_0000_0000_0000_0000_0000_0000_0000_0000_0000_0000nat,
{
    let m = x.magnitude();
    let s = significand(m);
    let e = exponent(m);
    lemma_units_parts(m);
    lemma2_to64();
    lemma2_to64_rest();
    lemma_pow2_pos(e);
    lemma_pow2_pos(1074);
    // The last place is at most that of the greatest binary64 below 2^128.
    assert(e <= 1149) by {
        if e >= 1150 {
            lemma_pow2_adds(52, 1150);
            lemma_pow2_le(1150, e);
            assert(s * pow2(e) >= pow2(52) * pow2(1150)) by (nonlinear_arith)
                requires
                    s >= pow2(52),
                    pow2(e) >= pow2(1150),
            ;
        }
    }
    lemma_pow2_le(e, 1149);
    lemma_pow2_adds(1149, 128);
    lemma_pow2_adds(203, 1074);
    let top: nat = 0x001f_ffff_ffff_ffff;
    let k = pow2(1074);
    assert(s * pow2(e) * pow2(128) <= top * pow2(1149) * pow2(128)) by (nonlinear_arith)
        requires
            s <= top,
            pow2(e) <= pow2(1149),
    ;
    assert(top * pow2(1149) * pow2(128) == (top * pow2(203)) * k) by (nonlinear_arith)
        requires
            pow2(1149) * pow2(128) == pow2(203) * k,
    ;
    let cut = units(m) * pow2(128) / k;
    vstd::arithmetic::div_mod::lemma_div_is_ordered(
        (units(m) * pow2(128)) as int,
        ((top * pow2(203)) * k) as int,
        k as int,
    );
    assert((top * pow2(203)) * k == k * (top * pow2(203))) by (nonlinear_arith);
    vstd::arithmetic::div_mod::lemma_div_multiples_vanish((top * pow2(203)) as int, k as int);
    lemma_pow2_limbs(3);
    lemma_pow2_adds(192, 11);
    assert(pow2(203) == limb_base() * limb_base() * limb_base() * 0x800);
    assert(top * pow2(203)
        == 0xffff_ffff_ffff_f800_0000_0000_0000_0000_0000_0000_0000_0000_0000_0000_0000_0000nat) by (nonlinear_arith)
        requires
            top == 0x001f_ffff_ffff_ffff,
            pow2(203) == 0x1_0000_0000_0000_0000nat * 0x1_0000_0000_0000_0000nat * 0x1_0000_0000_0000_0000nat * 0x800,
    ;
    lemma_fixed_magnitude(x.is_negative(), cut);
}

/// Powers of the limb base as powers of two.
proof fn lemma_pow2_limbs(place: nat)
    requires
        place <= 3,
    ensures
        place == 0 ==> pow2(64 * place) == 1,
        place == 1 ==> pow2(64 * place) == limb_base(),
        place == 2 ==> pow2(64 * place) == limb_base() * limb_base(),
        place == 3 ==> pow2(64 * place) == limb_base() * limb_base() * limb_base(),
{
    lemma2_to64();
    lemma_pow2_adds(64, 64);
    lemma_pow2_adds(128, 64);
}

/// A factor of both terms of a fraction can be taken out.
proof fn lemma_cancel(n: nat, d: nat, k: nat)
    requires
        d > 0,
        k > 0,
    ensures
        (n * k) / (d * k) == n / d,
{
    assert(n * k == k * n) by (nonlinear_arith);
    assert(d * k == k * d) by (nonlinear_arith);
    vstd::arithmetic::div_mod::lemma_div_multiples_vanish(n as int, k as int);
    vstd::arithmetic::div_mod::lemma_div_denominator((k * n) as int, k as int, d as int);
}

/// The powers of two that limbs are scaled by, in units.
pub proof fn lemma_scales()
    ensures
        units(two_to_the_64().magnitude()) == pow2(1074 + 64),
        units(two_to_the_128().magnitude()) == pow2(1074 + 128),
        two_to_the_64().is_finite(),
        two_to_the_128().is_finite(),
        !two_to_the_64().is_negative(),
        !two_to_the_128().is_negative(),
{
    lemma2_to64_rest();
    lemma_pow2_adds(52, 1086);
    lemma_pow2_adds(52, 1150);
}

/// A limb, rounded, has no sign, and is one at least unless it is zero.
proof fn lemma_whole_limb(n: nat)
    ensures
        unsigned(whole(n)),
        n > 0 ==> units(whole(n).magnitude()) >= pow2(1074),
{
    reveal(whole);
    let k = pow2(1074);
    lemma_pow2_pos(1074);
    lemma_rounded_max(n * k, 1);
    if n > 0 {
        law_whole_exact(1);
        assert(1 * k == k);
        assert(k <= n * k) by (nonlinear_arith)
            requires
                n >= 1,
        ;
        law_rounding_is_monotonic(k, n * k, 1);
        let (a, b) = (whole(1).magnitude(), whole(n).magnitude());
        if a < b {
            lemma_units_increase(a, b);
        }
    }
}

/// A limb that is scaled down does not vanish.
proof fn lemma_scaled_limb(n: nat, scale: Binary64, k: nat)
    requires
        scale.is_finite(),
        !scale.is_negative(),
        units(scale.magnitude()) == pow2(1074 + k),
        k <= 128,
    ensures
        unsigned(quotient(whole(n), scale)),
        n > 0 ==> quotient(whole(n), scale).magnitude() > 0,
        unsigned(product(whole(n), scale)),
        n > 0 ==> product(whole(n), scale).magnitude() > 0,
{
    lemma_whole_limb(n);
    reveal(quotient);
    reveal(product);
    let u = units(whole(n).magnitude());
    let s = pow2(1074 + k);
    let one = pow2(1074);
    lemma_pow2_pos(1074 + k);
    lemma_pow2_pos(1074);
    assert(!scale.is_zero());
    lemma_rounded_max(u * one, s);
    lemma_rounded_max(u * s, one);
    if n > 0 {
        assert(whole(n).magnitude() > 0);
        // Both results are at least one unit.
        lemma_pow2_le(1074 + k, 1074 + 1074);
        lemma_pow2_adds(1074, 1074);
        assert(s <= u * one) by (nonlinear_arith)
            requires
                s <= one * one,
                one <= u,
        ;
        assert(one <= u * s) by (nonlinear_arith)
            requires
                one <= u,
                s >= 1,
        ;
        assert(units(1) == 1);
        lemma_rounded_exact(1);
        lemma_rounded_scale(1, 1, s);
        lemma_rounded_scale(1, 1, one);
        law_rounding_is_monotonic(s, u * one, s);
        law_rounding_is_monotonic(one, u * s, one);
    }
}

/// A number above zero is taken for one above zero.
pub proof fn law_positive_stays_positive(q: Sq128)
    requires
        !q.neg,
        q.magnitude() > 0,
    ensures
        greater(approximation(q), signed(false, 0)),
{
    lemma_scales();
    let a = quotient(whole(q.limb0 as nat), two_to_the_128());
    let b = quotient(whole(q.limb1 as nat), two_to_the_64());
    let c = whole(q.limb2 as nat);
    let d = product(whole(q.limb3 as nat), two_to_the_64());
    lemma_scaled_limb(q.limb0 as nat, two_to_the_128(), 128);
    lemma_scaled_limb(q.limb1 as nat, two_to_the_64(), 64);
    lemma_whole_limb(q.limb2 as nat);
    lemma_pow2_pos(1074);
    lemma_scaled_limb(q.limb3 as nat, two_to_the_64(), 64);
    law_sum_grows(a, b);
    law_sum_grows(sum(a, b), c);
    law_sum_grows(d, sum(sum(a, b), c));
    let r = approximation(q);
    assert(q.limb0 > 0 || q.limb1 > 0 || q.limb2 > 0 || q.limb3 > 0);
    assert(r.magnitude() > 0);
    lemma_units_increase(0, r.magnitude());
    reveal(greater);
}

/// Whether `x` has no bits below `2^-128`.
pub open spec fn fits_fixed_point(x: Binary64) -> bool {
    units(x.magnitude()) * pow2(128) % pow2(1074) == 0
}

/// How much of a significand `s`, whose last bit is worth `2^up` units of
/// `2^-128`, lies below limb `k`.
spec fn part_below(s: nat, up: nat, k: nat) -> nat {
    if 64 * k <= up {
        0
    } else {
        s % pow2((64 * k - up) as nat)
    }
}

/// Cutting a shifted significand at a limb leaves a shifted significand.
proof fn lemma_part_below(s: nat, up: nat, k: nat)
    ensures
        (s * pow2(up)) % pow2(64 * k) == part_below(s, up, k) * pow2(up),
        part_below(s, up, k) <= s,
{
    let c = pow2(64 * k);
    let d = pow2(up);
    lemma_pow2_pos(64 * k);
    lemma_pow2_pos(up);
    if 64 * k <= up {
        let p = pow2((up - 64 * k) as nat);
        lemma_pow2_adds((up - 64 * k) as nat, 64 * k);
        assert(s * d == (s * p) * c) by (nonlinear_arith)
            requires
                d == p * c,
        ;
        vstd::arithmetic::div_mod::lemma_mod_multiples_basic((s * p) as int, c as int);
        assert(0 * d == 0);
    } else {
        let p = pow2((64 * k - up) as nat);
        lemma_pow2_pos((64 * k - up) as nat);
        lemma_pow2_adds(up, (64 * k - up) as nat);
        vstd::arithmetic::div_mod::lemma_truncate_middle(s as int, d as int, p as int);
        assert(s * d == d * s) by (nonlinear_arith);
        assert((s % p) * d == d * (s % p)) by (nonlinear_arith);
        vstd::arithmetic::div_mod::lemma_mod_decreases(s, p);
    }
}

/// The low limbs are what is left of the magnitude below the high ones.
proof fn lemma_low_limbs(q: Sq128)
    ensures
        q.magnitude() % pow2(64) == q.limb0,
        q.magnitude() % pow2(128) == q.limb0 + limb_base() * (q.limb1 as nat),
        q.magnitude() % pow2(192) == q.limb0 + limb_base() * (q.limb1 as nat + limb_base() * (q.limb2 as nat)),
{
    let b = limb_base();
    let (l0, l1, l2, l3) = (q.limb0 as nat, q.limb1 as nat, q.limb2 as nat, q.limb3 as nat);
    lemma_pow2_limbs(1);
    lemma_pow2_limbs(2);
    lemma_pow2_limbs(3);
    assert(q.magnitude() == (l1 + b * (l2 + b * l3)) * b + l0);
    vstd::arithmetic::div_mod::lemma_fundamental_div_mod_converse(
        q.magnitude() as int,
        b as int,
        (l1 + b * (l2 + b * l3)) as int,
        l0 as int,
    );
    assert(q.magnitude() == (l2 + b * l3) * (b * b) + (l0 + b * l1));
    vstd::arithmetic::div_mod::lemma_fundamental_div_mod_converse(
        q.magnitude() as int,
        (b * b) as int,
        (l2 + b * l3) as int,
        (l0 + b * l1) as int,
    );
    assert(q.magnitude() == l3 * (b * b * b) + (l0 + b * (l1 + b * l2)));
    vstd::arithmetic::div_mod::lemma_fundamental_div_mod_converse(
        q.magnitude() as int,
        (b * b * b) as int,
        l3 as int,
        (l0 + b * (l1 + b * l2)) as int,
    );
}

/// The number `s * 2^e`, in units.
spec fn held(s: nat, e: nat) -> Binary64 {
    signed(false, rounded(s * pow2(e), 1))
}

/// Parts of one significand are added without rounding.
proof fn lemma_held_sum(s: nat, t: nat, e: nat)
    requires
        s + t < 0x0020_0000_0000_0000,
        e <= 2045,
    ensures
        sum(held(s, e), held(t, e)) == held(s + t, e),
{
    let p = pow2(e);
    lemma_held(s, e);
    lemma_held(t, e);
    lemma_held(s + t, e);
    assert((s + t) * p == s * p + t * p) by (nonlinear_arith);
    reveal(sum);
}

/// A limb that holds a part `s` of a significand is not rounded, nor is its
/// share of the whole.
proof fn lemma_limb_held(limb: nat, j: nat, s: nat, e: nat)
    requires
        j <= 3,
        s < 0x0020_0000_0000_0000,
        946 <= e <= 1149,
        limb * pow2(64 * j) * pow2(946) == s * pow2(e),
    ensures
        j == 0 ==> quotient(whole(limb), two_to_the_128()) == held(s, e),
        j == 1 ==> quotient(whole(limb), two_to_the_64()) == held(s, e),
        j == 2 ==> whole(limb) == held(s, e),
        j == 3 ==> product(whole(limb), two_to_the_64()) == held(s, e),
{
    let k = pow2(1074);
    let f = (e + 128 - 64 * j) as nat;
    lemma_scales();
    lemma_held(s, e);
    lemma_held(s, f);
    // As a whole number, the limb is s * 2^f units.
    assert(limb * k == s * pow2(f)) by {
        lemma_pow2_adds(64 * j, 946);
        lemma_pow2_pos(64 * j + 946);
        let c = pow2(64 * j + 946);
        assert(limb * c == s * pow2(e)) by (nonlinear_arith)
            requires
                limb * pow2(64 * j) * pow2(946) == s * pow2(e),
                c == pow2(64 * j) * pow2(946),
        ;
        if j <= 2 {
            let g = (128 - 64 * j) as nat;
            lemma_pow2_adds(64 * j + 946, g);
            lemma_pow2_adds(e, g);
            assert(limb * (c * pow2(g)) == s * (pow2(e) * pow2(g))) by (nonlinear_arith)
                requires
                    limb * c == s * pow2(e),
            ;
        } else {
            lemma_pow2_adds(1074, 64);
            lemma_pow2_adds(f, 64);
            lemma_pow2_pos(64);
            assert(limb * k == s * pow2(f)) by (nonlinear_arith)
                requires
                    limb * (k * pow2(64)) == s * (pow2(f) * pow2(64)),
                    pow2(64) > 0,
            ;
        }
    }
    reveal(whole);
    let n = whole(limb);
    let h = held(s, e);
    assert(n.is_finite() && !n.is_negative() && units(n.magnitude()) == s * pow2(f));
    assert(h.is_finite() && !h.is_negative() && units(h.magnitude()) == s * pow2(e));
    lemma_pow2_pos(1202);
    lemma_pow2_pos(1138);
    if j == 0 {
        lemma_pow2_adds(f, 1074);
        lemma_pow2_adds(e, 1202);
        assert((s * pow2(f)) * k == (s * pow2(e)) * pow2(1202)) by (nonlinear_arith)
            requires
                pow2(f) * k == pow2(e) * pow2(1202),
        ;
        assert(!two_to_the_128().is_zero());
        law_quotient_exact(n, two_to_the_128(), h);
    } else if j == 1 {
        lemma_pow2_adds(f, 1074);
        lemma_pow2_adds(e, 1138);
        assert((s * pow2(f)) * k == (s * pow2(e)) * pow2(1138)) by (nonlinear_arith)
            requires
                pow2(f) * k == pow2(e) * pow2(1138),
        ;
        assert(!two_to_the_64().is_zero());
        law_quotient_exact(n, two_to_the_64(), h);
    } else if j == 3 {
        lemma_pow2_adds(f, 1138);
        lemma_pow2_adds(e, 1074);
        assert((s * pow2(f)) * pow2(1138) == (s * pow2(e)) * k) by (nonlinear_arith)
            requires
                pow2(f) * pow2(1138) == pow2(e) * k,
        ;
        law_product_exact(n, two_to_the_64(), h);
    }
}

/// A number whose magnitude is a shifted significand is taken for just that.
proof fn lemma_approximation_held(q: Sq128, s: nat, up: nat)
    requires
        s < 0x0020_0000_0000_0000,
        up <= 203,
        q.magnitude() == s * pow2(up),
    ensures
        approximation(Sq128 { neg: false, ..q }) == held(s, up + 946),
{
    let e = up + 946;
    let d = pow2(up);
    let b = limb_base();
    let (l0, l1, l2, l3) = (q.limb0 as nat, q.limb1 as nat, q.limb2 as nat, q.limb3 as nat);
    let (t1, t2, t3) = (part_below(s, up, 1), part_below(s, up, 2), part_below(s, up, 3));
    lemma_pow2_pos(up);
    lemma_pow2_adds(up, 946);
    lemma_low_limbs(q);
    lemma_part_below(s, up, 1);
    lemma_part_below(s, up, 2);
    lemma_part_below(s, up, 3);
    lemma_pow2_limbs(0);
    lemma_pow2_limbs(1);
    lemma_pow2_limbs(2);
    lemma_pow2_limbs(3);
    // Each limb holds what lies below the next one and not below itself.
    assert(l0 == t1 * d);
    assert(l0 + b * l1 == t2 * d);
    assert(l0 + b * (l1 + b * l2) == t3 * d);
    assert(t1 <= t2) by (nonlinear_arith)
        requires
            t1 * d <= t2 * d,
            d > 0,
    ;
    assert(t2 <= t3) by (nonlinear_arith)
        requires
            t2 * d <= t3 * d,
            d > 0,
    ;
    let (s1, s2, s3) = ((t2 - t1) as nat, (t3 - t2) as nat, (s - t3) as nat);
    assert(s1 * d == t2 * d - t1 * d && s2 * d == t3 * d - t2 * d && s3 * d == s * d - t3 * d) by (nonlinear_arith)
        requires
            s1 == t2 - t1,
            s2 == t3 - t2,
            s3 == s - t3,
    ;
    let r = pow2(946);
    assert(l0 * 1 * r == t1 * (d * r)) by (nonlinear_arith)
        requires
            l0 == t1 * d,
    ;
    assert(l1 * b * r == s1 * (d * r)) by (nonlinear_arith)
        requires
            b * l1 == s1 * d,
    ;
    assert(l2 * (b * b) * r == s2 * (d * r)) by (nonlinear_arith)
        requires
            b * (b * l2) == s2 * d,
    ;
    assert(l3 * (b * b * b) * r == s3 * (d * r)) by (nonlinear_arith)
        requires
            b * (b * (b * l3)) == s3 * d,
    ;
    lemma_limb_held(l0, 0, t1, e);
    lemma_limb_held(l1, 1, s1, e);
    lemma_limb_held(l2, 2, s2, e);
    lemma_limb_held(l3, 3, s3, e);
    lemma_held_sum(t1, s1, e);
    lemma_held_sum(t2, s2, e);
    lemma_held_sum(s3, t3, e);
}

/// What is written to the market is read back as it was, up to the sign of a
/// zero, where it has no bits below `2^-128`.
pub proof fn law_read_back(x: Binary64)
    requires
        x.is_finite(),
        in_range(x),
        fits_fixed_point(x),
    ensures
        !x.is_zero() ==> approximation(truncated(x)) == x,
        x.is_zero() ==> approximation(truncated(x)) == signed(false, 0),
{
    let m = x.magnitude();
    let (s, e) = (significand(m), exponent(m));
    let k = pow2(1074);
    let q = truncated(x);
    let cut = q.magnitude();
    lemma_units_parts(m);
    lemma_truncated_magnitude(x);
    lemma_pow2_pos(1074);
    lemma_pow2_pos(e);
    lemma_pow2_pos(128);
    lemma2_to64_rest();
    lemma2_to64();
    vstd::arithmetic::div_mod::lemma_fundamental_div_mod((units(m) * pow2(128)) as int, k as int);
    assert(cut * k == units(m) * pow2(128)) by (nonlinear_arith)
        requires
            units(m) * pow2(128) == k * cut,
    ;
    lemma_pow2_adds(946, 128);
    assert(cut * pow2(946) == units(m)) by (nonlinear_arith)
        requires
            cut * (pow2(946) * pow2(128)) == units(m) * pow2(128),
            pow2(128) > 0,
    ;
    lemma_rounded_exact(m);
    if m > 0 {
        lemma_units_increase(0, m);
        assert(cut > 0) by (nonlinear_arith)
            requires
                cut * pow2(946) > 0,
        ;
    } else {
        lemma_pow2_pos(946);
        assert(cut == 0) by (nonlinear_arith)
            requires
                cut * pow2(946) == 0,
                pow2(946) > 0,
        ;
    }
    if e >= 946 {
        let up = (e - 946) as nat;
        assert(up <= 203) by {
            if e >= 1150 {
                lemma_pow2_adds(52, 1150);
                lemma_pow2_le(1150, e);
                assert(s * pow2(e) >= pow2(52) * pow2(1150)) by (nonlinear_arith)
                    requires
                        s >= pow2(52),
                        pow2(e) >= pow2(1150),
                ;
            }
        }
        lemma_pow2_adds(up, 946);
        lemma_pow2_pos(946);
        assert(cut == s * pow2(up)) by (nonlinear_arith)
            requires
                cut * pow2(946) == s * (pow2(up) * pow2(946)),
                pow2(946) > 0,
        ;
        lemma_approximation_held(q, s, up);
    } else {
        lemma_pow2_le(e, 946);
        assert(cut < 0x0020_0000_0000_0000) by (nonlinear_arith)
            requires
                cut * pow2(946) == s * pow2(e),
                s < 0x0020_0000_0000_0000,
                0 < pow2(e) <= pow2(946),
        ;
        assert(cut * pow2(0) == cut) by (nonlinear_arith)
            requires
                pow2(0) == 1,
        ;
        lemma_approximation_held(q, cut, 0);
    }
}

} // verus!
