//! IEEE 754 binary64 numbers, held as their bit patterns.
//!
//! The arithmetic is done on integers and proved to be the correctly rounded
//! one: each operation gives the binary64 nearest to the exact result, ties to
//! even, with the infinities, the signed zeros and not-a-number as the standard
//! has them. Which not-a-number comes out is not the standard's business; here
//! it is always the same one.

use vstd::prelude::*;
use vstd::arithmetic::power2::*;
use crate::root::{round_root, rounded_root};
use crate::rounding::{
    exponent, law_rounding_error, law_rounding_is_monotonic, lemma_held, lemma_pow2_le, lemma_rounded_at_least_one,
    lemma_rounded_exact, lemma_rounded_far, lemma_rounded_scale, lemma_rounded_zero,
    lemma_units_increase, lemma_units_parts, power_of_two, round_quotient, round_scaled, rounded,
    significand, units, HIDDEN_BIT, INFINITY_BITS,
};

verus! {

/// The bit that holds the sign.
pub const SIGN_BIT: u64 = 0x8000_0000_0000_0000;

/// The bits of the not-a-number that operations give.
pub const NAN_BITS: u64 = 0x7ff8_0000_0000_0000;

/// A binary64 number.
#[derive(Debug, Clone, Copy, PartialEq, Eq, Structural)]
pub struct Binary64 {
    /// Sign, exponent field and fraction, from the highest bit down.
    pub bits: u64,
}

impl Binary64 {
    /// Whether the sign bit is set.
    pub open spec fn is_negative(self) -> bool {
        self.bits >= SIGN_BIT
    }

    /// The bits below the sign.
    pub open spec fn magnitude(self) -> nat {
        if self.is_negative() {
            (self.bits - SIGN_BIT) as nat
        } else {
            self.bits as nat
        }
    }

    /// Whether this is no number.
    pub open spec fn is_nan(self) -> bool {
        self.magnitude() > INFINITY_BITS
    }

    /// Whether this is one of the two infinities.
    pub open spec fn is_infinite(self) -> bool {
        self.magnitude() == INFINITY_BITS
    }

    /// Whether this is a number and not an infinity.
    pub open spec fn is_finite(self) -> bool {
        self.magnitude() < INFINITY_BITS
    }

    /// Whether this is one of the two zeros.
    pub open spec fn is_zero(self) -> bool {
        self.magnitude() == 0
    }

    /// The number, in units of `2^-1074`. An infinity counts as the power of
    /// two after the greatest finite magnitude, which orders it correctly.
    pub open spec fn value(self) -> int {
        if self.is_negative() {
            -(units(self.magnitude()) as int)
        } else {
            units(self.magnitude()) as int
        }
    }
}

/// The number with the given sign and magnitude bits.
pub open spec fn signed(negative: bool, m: nat) -> Binary64 {
    Binary64 {
        bits: (if negative {
            m + SIGN_BIT
        } else {
            m as int
        }) as u64,
    }
}

/// The not-a-number that operations give.
pub open spec fn not_a_number() -> Binary64 {
    Binary64 { bits: NAN_BITS }
}

/// The distance of `v` from zero.
pub open spec fn distance(v: int) -> nat {
    (if v < 0 {
        -v
    } else {
        v
    }) as nat
}

/// `a + b`.
#[verifier::opaque]
pub open spec fn sum(a: Binary64, b: Binary64) -> Binary64 {
    if a.is_nan() || b.is_nan() {
        not_a_number()
    } else if a.is_infinite() {
        if b.is_infinite() && a.is_negative() != b.is_negative() {
            not_a_number()
        } else {
            a
        }
    } else if b.is_infinite() {
        b
    } else {
        let v = a.value() + b.value();
        signed(
            if v == 0 {
                a.is_negative() && b.is_negative()
            } else {
                v < 0
            },
            rounded(distance(v), 1),
        )
    }
}

/// `-a`.
pub open spec fn opposite(a: Binary64) -> Binary64 {
    signed(!a.is_negative(), a.magnitude())
}

/// `a - b`.
pub open spec fn difference(a: Binary64, b: Binary64) -> Binary64 {
    sum(a, opposite(b))
}

/// `a * b`.
#[verifier::opaque]
pub open spec fn product(a: Binary64, b: Binary64) -> Binary64 {
    let negative = a.is_negative() != b.is_negative();
    if a.is_nan() || b.is_nan() {
        not_a_number()
    } else if a.is_infinite() || b.is_infinite() {
        if a.is_zero() || b.is_zero() {
            not_a_number()
        } else {
            signed(negative, INFINITY_BITS as nat)
        }
    } else {
        signed(negative, rounded(units(a.magnitude()) * units(b.magnitude()), pow2(1074)))
    }
}

/// `a / b`.
#[verifier::opaque]
pub open spec fn quotient(a: Binary64, b: Binary64) -> Binary64 {
    let negative = a.is_negative() != b.is_negative();
    if a.is_nan() || b.is_nan() {
        not_a_number()
    } else if a.is_infinite() {
        if b.is_infinite() {
            not_a_number()
        } else {
            signed(negative, INFINITY_BITS as nat)
        }
    } else if b.is_infinite() {
        signed(negative, 0)
    } else if b.is_zero() {
        if a.is_zero() {
            not_a_number()
        } else {
            signed(negative, INFINITY_BITS as nat)
        }
    } else {
        signed(negative, rounded(units(a.magnitude()) * pow2(1074), units(b.magnitude())))
    }
}

/// The square root of `a`.
#[verifier::opaque]
pub open spec fn square_root(a: Binary64) -> Binary64 {
    if a.is_nan() {
        not_a_number()
    } else if a.is_zero() {
        a
    } else if a.is_negative() {
        not_a_number()
    } else if a.is_infinite() {
        a
    } else {
        signed(false, rounded_root(units(a.magnitude()) * pow2(1074)))
    }
}

/// `a > b`: false where either is no number.
#[verifier::opaque]
pub open spec fn greater(a: Binary64, b: Binary64) -> bool {
    !a.is_nan() && !b.is_nan() && a.value() > b.value()
}

/// `a == b`: the two zeros are equal, and not-a-number equals nothing.
#[verifier::opaque]
pub open spec fn same(a: Binary64, b: Binary64) -> bool {
    !a.is_nan() && !b.is_nan() && a.value() == b.value()
}

/// The greater of `a` and `b`; the other one where one is no number.
pub open spec fn maximum(a: Binary64, b: Binary64) -> Binary64 {
    if b.is_nan() || greater(a, b) {
        a
    } else {
        b
    }
}

/// The binary64 nearest to the whole number `n`.
#[verifier::opaque]
pub open spec fn whole(n: nat) -> Binary64 {
    signed(false, rounded(n * pow2(1074), 1))
}

/// The binary64 nearest to `n / d`.
#[verifier::opaque]
pub open spec fn ratio(n: nat, d: nat) -> Binary64 {
    signed(false, rounded(n * pow2(1074), d))
}

/// Rounding never goes beyond infinity.
pub proof fn lemma_rounded_max(n: nat, d: nat)
    ensures
        rounded(n, d) <= INFINITY_BITS,
{
}

impl Binary64 {
    /// Tests the sign bit.
    pub(crate) fn sign(self) -> (negative: bool)
        ensures
            negative == self.is_negative(),
    {
        self.bits >= SIGN_BIT
    }

    /// Takes the sign bit off.
    fn absolute(self) -> (m: u64)
        ensures
            m == self.magnitude(),
            m < SIGN_BIT,
    {
        if self.bits >= SIGN_BIT {
            self.bits - SIGN_BIT
        } else {
            self.bits
        }
    }

    /// Tests for an infinity or a not-a-number.
    pub(crate) fn finite(self) -> (r: bool)
        ensures
            r == self.is_finite(),
    {
        self.absolute() < INFINITY_BITS
    }

    /// Splits a finite number into its significand and the exponent of its last
    /// place.
    pub(crate) fn split(self) -> (parts: (u64, u64))
        requires
            self.is_finite(),
        ensures
            parts.0 == significand(self.magnitude()),
            parts.1 == exponent(self.magnitude()),
            parts.1 <= 2045,
    {
        split(self.absolute())
    }

    /// Puts a sign on magnitude bits.
    fn from_parts(negative: bool, m: u64) -> (r: Self)
        requires
            m < SIGN_BIT,
        ensures
            r == signed(negative, m as nat),
    {
        if negative {
            Binary64 { bits: m + SIGN_BIT }
        } else {
            Binary64 { bits: m }
        }
    }

    /// `-self`.
    pub fn negated(self) -> (r: Self)
        ensures
            r == opposite(self),
    {
        Self::from_parts(!self.sign(), self.absolute())
    }
}

/// Splits finite magnitude bits into a significand and the exponent of its
/// last place.
fn split(m: u64) -> (parts: (u64, u64))
    requires
        m < INFINITY_BITS,
    ensures
        parts.0 == significand(m as nat),
        parts.1 == exponent(m as nat),
        parts.1 <= 2045,
{
    if m < HIDDEN_BIT {
        (m, 0)
    } else {
        (m % HIDDEN_BIT + HIDDEN_BIT, m / HIDDEN_BIT - 1)
    }
}

/// The magnitude bits nearest to the sum or the difference of two magnitudes,
/// the greater one first.
fn combine(big: u64, small: u64, subtract: bool) -> (m: u64)
    requires
        small <= big < INFINITY_BITS,
    ensures
        units(small as nat) <= units(big as nat),
        m == rounded(
            if subtract {
                (units(big as nat) - units(small as nat)) as nat
            } else {
                units(big as nat) + units(small as nat)
            },
            1,
        ),
{
    let (sb, eb) = split(big);
    let (ss, es) = split(small);
    let ghost ub: nat = units(big as nat);
    let ghost us: nat = units(small as nat);
    proof {
        lemma_units_parts(big as nat);
        lemma_units_parts(small as nat);
        if small < big {
            lemma_units_increase(small as nat, big as nat);
        }
        lemma2_to64();
        lemma_pow2_pos(es as nat);
    }
    let gap: u64 = eb - es;
    if gap <= 64 {
        let p: u128 = power_of_two(gap);
        proof {
            lemma_pow2_le(gap as nat, 64);
            lemma_pow2_pos(gap as nat);
            lemma_pow2_adds(gap as nat, es as nat);
            assert(sb as nat * p < 0x0020_0000_0000_0000 * 0x1_0000_0000_0000_0000) by (nonlinear_arith)
                requires
                    sb < 0x0020_0000_0000_0000,
                    p <= 0x1_0000_0000_0000_0000,
            ;
            assert(ub == (sb as nat * p) * pow2(es as nat)) by (nonlinear_arith)
                requires
                    ub == sb as nat * (p * pow2(es as nat)),
            ;
        }
        let aligned: u128 = sb as u128 * p;
        if subtract {
            proof {
                assert(aligned >= ss) by {
                    if aligned < ss {
                        assert(aligned * pow2(es as nat) < ss * pow2(es as nat)) by (nonlinear_arith)
                            requires
                                aligned < ss,
                                pow2(es as nat) > 0,
                        ;
                    }
                }
                assert((aligned - ss) * pow2(es as nat) == ub - us) by (nonlinear_arith)
                    requires
                        ub == aligned * pow2(es as nat),
                        us == ss * pow2(es as nat),
                ;
            }
            round_scaled(aligned - ss as u128, es, 0)
        } else {
            proof {
                assert((aligned + ss) * pow2(es as nat) == ub + us) by (nonlinear_arith)
                    requires
                        ub == aligned * pow2(es as nat),
                        us == ss * pow2(es as nat),
                ;
            }
            round_scaled(aligned + ss as u128, es, 0)
        }
    } else {
        proof {
            lemma2_to64_rest();
            lemma_pow2_adds(55, es as nat);
            lemma_pow2_le((55 + es) as nat, eb as nat);
            assert(4 * us < pow2(55) * pow2(es as nat)) by (nonlinear_arith)
                requires
                    us == ss * pow2(es as nat),
                    ss < 0x0020_0000_0000_0000,
                    pow2(55) == 0x0080_0000_0000_0000,
                    pow2(es as nat) > 0,
            ;
            lemma_rounded_far(big as nat, us);
        }
        big
    }
}

impl Binary64 {
    /// `self + other`.
    pub fn plus(self, other: Self) -> (r: Self)
        ensures
            r == sum(self, other),
    {
        proof {
            reveal(sum);
        }
        let a: u64 = self.absolute();
        let b: u64 = other.absolute();
        if a > INFINITY_BITS || b > INFINITY_BITS {
            return Binary64 { bits: NAN_BITS };
        }
        if a == INFINITY_BITS {
            if b == INFINITY_BITS && self.sign() != other.sign() {
                return Binary64 { bits: NAN_BITS };
            }
            return self;
        }
        if b == INFINITY_BITS {
            return other;
        }
        let subtract: bool = self.sign() != other.sign();
        proof {
            if a < b {
                lemma_units_increase(a as nat, b as nat);
            }
            if b < a {
                lemma_units_increase(b as nat, a as nat);
            }
        }
        if a >= b {
            let m: u64 = combine(a, b, subtract);
            Self::from_parts(self.sign() && !(subtract && a == b), m)
        } else {
            let m: u64 = combine(b, a, subtract);
            Self::from_parts(other.sign(), m)
        }
    }

    /// `self - other`.
    pub fn minus(self, other: Self) -> (r: Self)
        ensures
            r == difference(self, other),
    {
        self.plus(other.negated())
    }
}

impl Binary64 {
    /// `self * other`.
    pub fn times(self, other: Self) -> (r: Self)
        ensures
            r == product(self, other),
    {
        proof {
            reveal(product);
        }
        let a: u64 = self.absolute();
        let b: u64 = other.absolute();
        let negative: bool = self.sign() != other.sign();
        if a > INFINITY_BITS || b > INFINITY_BITS {
            return Binary64 { bits: NAN_BITS };
        }
        if a == INFINITY_BITS || b == INFINITY_BITS {
            if a == 0 || b == 0 {
                return Binary64 { bits: NAN_BITS };
            }
            return Self::from_parts(negative, INFINITY_BITS);
        }
        let (sa, ea) = split(a);
        let (sb, eb) = split(b);
        proof {
            lemma_units_parts(a as nat);
            lemma_units_parts(b as nat);
            lemma_pow2_adds(ea as nat, eb as nat);
            assert((sa as nat) * (sb as nat) < 0x0020_0000_0000_0000 * 0x0020_0000_0000_0000) by (nonlinear_arith)
                requires
                    sa < 0x0020_0000_0000_0000,
                    sb < 0x0020_0000_0000_0000,
            ;
            let pa = pow2(ea as nat);
            let pb = pow2(eb as nat);
            assert((sa as nat * pa) * (sb as nat * pb) == (sa as nat * sb as nat) * (pa * pb)) by (nonlinear_arith);
        }
        let m: u64 = round_scaled(sa as u128 * sb as u128, ea + eb, 1074);
        Self::from_parts(negative, m)
    }

    /// `self / other`.
    pub fn over(self, other: Self) -> (r: Self)
        ensures
            r == quotient(self, other),
    {
        proof {
            reveal(quotient);
        }
        let a: u64 = self.absolute();
        let b: u64 = other.absolute();
        let negative: bool = self.sign() != other.sign();
        if a > INFINITY_BITS || b > INFINITY_BITS {
            return Binary64 { bits: NAN_BITS };
        }
        if a == INFINITY_BITS {
            if b == INFINITY_BITS {
                return Binary64 { bits: NAN_BITS };
            }
            return Self::from_parts(negative, INFINITY_BITS);
        }
        if b == INFINITY_BITS {
            return Self::from_parts(negative, 0);
        }
        if b == 0 {
            if a == 0 {
                return Binary64 { bits: NAN_BITS };
            }
            return Self::from_parts(negative, INFINITY_BITS);
        }
        let (sa, ea) = split(a);
        let (sb, eb) = split(b);
        proof {
            lemma_units_parts(a as nat);
            lemma_units_parts(b as nat);
            lemma_pow2_adds(ea as nat, 1074);
            assert((sa as nat * pow2(ea as nat)) * pow2(1074) == sa as nat * (pow2(ea as nat) * pow2(1074)))
                by (nonlinear_arith);
        }
        let m: u64 = round_quotient(sa, ea + 1074, sb, eb);
        Self::from_parts(negative, m)
    }

    /// The square root of `self`.
    pub fn sqrt(self) -> (r: Self)
        ensures
            r == square_root(self),
    {
        proof {
            reveal(square_root);
        }
        let a: u64 = self.absolute();
        if a > INFINITY_BITS {
            Binary64 { bits: NAN_BITS }
        } else if a == 0 {
            self
        } else if self.sign() {
            Binary64 { bits: NAN_BITS }
        } else if a == INFINITY_BITS {
            self
        } else {
            let (sa, ea) = split(a);
            proof {
                lemma_units_parts(a as nat);
            }
            let m: u64 = round_root(sa, ea);
            Self::from_parts(false, m)
        }
    }

    /// Whether `self > other`.
    pub fn exceeds(self, other: Self) -> (r: bool)
        ensures
            r == greater(self, other),
    {
        proof {
            reveal(greater);
        }
        let a: u64 = self.absolute();
        let b: u64 = other.absolute();
        proof {
            if a < b {
                lemma_units_increase(a as nat, b as nat);
            }
            if b < a {
                lemma_units_increase(b as nat, a as nat);
            }
            if a > 0 {
                lemma_units_increase(0, a as nat);
            }
            if b > 0 {
                lemma_units_increase(0, b as nat);
            }
        }
        if a > INFINITY_BITS || b > INFINITY_BITS {
            false
        } else if self.sign() {
            other.sign() && a < b
        } else if other.sign() {
            a > 0 || b > 0
        } else {
            a > b
        }
    }

    /// Whether `self == other`, as numbers.
    pub fn equals(self, other: Self) -> (r: bool)
        ensures
            r == same(self, other),
    {
        proof {
            reveal(same);
        }
        let a: u64 = self.absolute();
        let b: u64 = other.absolute();
        proof {
            if a < b {
                lemma_units_increase(a as nat, b as nat);
            }
            if b < a {
                lemma_units_increase(b as nat, a as nat);
            }
            if a > 0 {
                lemma_units_increase(0, a as nat);
            }
            if b > 0 {
                lemma_units_increase(0, b as nat);
            }
        }
        a <= INFINITY_BITS && a == b && (self.sign() == other.sign() || a == 0)
    }

    /// The greater of two numbers.
    pub fn max(self, other: Self) -> (r: Self)
        ensures
            r == maximum(self, other),
    {
        if other.absolute() > INFINITY_BITS || self.exceeds(other) {
            self
        } else {
            other
        }
    }

    /// The number nearest to `n`.
    pub fn from_u64(n: u64) -> (r: Self)
        ensures
            r == whole(n as nat),
    {
        proof {
            reveal(whole);
            lemma2_to64();
        }
        let m: u64 = round_scaled(n as u128, 1074, 0);
        Self::from_parts(false, m)
    }

    /// The number nearest to `n / d`.
    pub fn from_ratio(n: u64, d: u64) -> (r: Self)
        requires
            d > 0,
        ensures
            r == ratio(n as nat, d as nat),
    {
        proof {
            reveal(ratio);
            lemma2_to64();
            assert(d as nat * pow2(0) == d) by (nonlinear_arith)
                requires
                    pow2(0) == 1,
            ;
        }
        let m: u64 = round_quotient(n, 1074, d, 0);
        Self::from_parts(false, m)
    }
}

/// Not-a-number comes out of every operation that it goes into, and compares as
/// nothing.
pub proof fn law_nan_propagates(a: Binary64, b: Binary64)
    requires
        a.is_nan() || b.is_nan(),
    ensures
        sum(a, b) == not_a_number(),
        difference(a, b) == not_a_number(),
        product(a, b) == not_a_number(),
        quotient(a, b) == not_a_number(),
        not_a_number().is_nan(),
        !greater(a, b),
        !same(a, b),
{
    reveal(sum);
    reveal(product);
    reveal(quotient);
    reveal(greater);
    reveal(same);
}

/// A sum that binary64 holds is not rounded.
pub proof fn law_sum_exact(a: Binary64, b: Binary64, r: Binary64)
    requires
        a.is_finite(),
        b.is_finite(),
        r.is_finite(),
        a.value() + b.value() == r.value(),
        r.value() != 0,
    ensures
        sum(a, b) == r,
{
    reveal(sum);
    lemma_rounded_exact(r.magnitude());
}

/// A finite number less itself is zero, without a sign.
pub proof fn law_difference_with_itself(a: Binary64)
    requires
        a.is_finite(),
    ensures
        difference(a, a) == signed(false, 0),
{
    reveal(sum);
    lemma_rounded_zero(1);
}

/// A product that binary64 holds is not rounded.
pub proof fn law_product_exact(a: Binary64, b: Binary64, r: Binary64)
    requires
        a.is_finite(),
        b.is_finite(),
        !r.is_nan(),
        r.is_negative() == (a.is_negative() != b.is_negative()),
        units(a.magnitude()) * units(b.magnitude()) == units(r.magnitude()) * pow2(1074),
    ensures
        product(a, b) == r,
{
    reveal(product);
    lemma_pow2_pos(1074);
    lemma_rounded_scale(units(r.magnitude()), 1, pow2(1074));
    assert(1 * pow2(1074) == pow2(1074));
    lemma_rounded_exact(r.magnitude());
}

/// A quotient that binary64 holds is not rounded.
pub proof fn law_quotient_exact(a: Binary64, b: Binary64, r: Binary64)
    requires
        a.is_finite(),
        b.is_finite(),
        !b.is_zero(),
        !r.is_nan(),
        r.is_negative() == (a.is_negative() != b.is_negative()),
        units(a.magnitude()) * pow2(1074) == units(r.magnitude()) * units(b.magnitude()),
    ensures
        quotient(a, b) == r,
{
    reveal(quotient);
    lemma_units_increase(0, b.magnitude());
    lemma_rounded_scale(units(r.magnitude()), 1, units(b.magnitude()));
    assert(1 * units(b.magnitude()) == units(b.magnitude()));
    lemma_rounded_exact(r.magnitude());
}

/// The difference of two finite numbers has the sign of their order: however
/// close they are, it does not vanish.
pub proof fn law_difference_sign(a: Binary64, b: Binary64)
    requires
        a.is_finite(),
        b.is_finite(),
    ensures
        !difference(a, b).is_nan(),
        greater(difference(a, b), signed(false, 0)) == greater(a, b),
        greater(signed(false, 0), difference(a, b)) == greater(b, a),
{
    reveal(sum);
    reveal(greater);
    let v = a.value() - b.value();
    let m = rounded(distance(v), 1);
    lemma_rounded_zero(1);
    if v != 0 {
        lemma_rounded_at_least_one(distance(v));
        lemma_units_increase(0, m);
    }
}

/// Whole numbers below `2^53` are held as they are.
pub proof fn law_whole_exact(n: nat)
    requires
        n < 0x0020_0000_0000_0000,
    ensures
        whole(n).is_finite(),
        !whole(n).is_negative(),
        units(whole(n).magnitude()) == n * pow2(1074),
{
    reveal(whole);
    lemma_held(n, 1074);
}

/// Whether `a` is a number and has no sign.
pub open spec fn unsigned(a: Binary64) -> bool {
    !a.is_nan() && !a.is_negative()
}

/// Adding numbers without a sign gives none that is smaller.
pub proof fn law_sum_grows(a: Binary64, b: Binary64)
    requires
        unsigned(a),
        unsigned(b),
    ensures
        unsigned(sum(a, b)),
        sum(a, b).magnitude() >= a.magnitude(),
        sum(a, b).magnitude() >= b.magnitude(),
{
    reveal(sum);
    let (u, v) = (units(a.magnitude()), units(b.magnitude()));
    lemma_rounded_max(u + v, 1);
    if a.is_finite() && b.is_finite() {
        lemma_rounded_exact(a.magnitude());
        lemma_rounded_exact(b.magnitude());
        law_rounding_is_monotonic(u, u + v, 1);
        law_rounding_is_monotonic(v, u + v, 1);
    }
}

/// The order of addends does not matter.
pub proof fn law_sum_commutes(a: Binary64, b: Binary64)
    ensures
        sum(a, b) == sum(b, a),
{
    reveal(sum);
}

/// What rounding makes of two whole numbers of units keeps their order.
proof fn lemma_rounded_order(v: int, w: int, nv: bool, nw: bool)
    requires
        v <= w,
        v < 0 ==> nv,
        v > 0 ==> !nv,
        w < 0 ==> nw,
        w > 0 ==> !nw,
    ensures
        signed(nv, rounded(distance(v), 1)).value() <= signed(nw, rounded(distance(w), 1)).value(),
{
    let (x, y) = (rounded(distance(v), 1), rounded(distance(w), 1));
    lemma_rounded_zero(1);
    lemma_rounded_max(distance(v), 1);
    lemma_rounded_max(distance(w), 1);
    if 0 <= v {
        law_rounding_is_monotonic(distance(v), distance(w), 1);
        if x < y {
            lemma_units_increase(x, y);
        }
    } else if w <= 0 {
        law_rounding_is_monotonic(distance(w), distance(v), 1);
        if y < x {
            lemma_units_increase(y, x);
        }
    }
}

/// No number is beyond the infinities, and none but they reach them.
proof fn lemma_within_infinities(a: Binary64)
    requires
        !a.is_nan(),
    ensures
        -(units(INFINITY_BITS as nat) as int) <= a.value() <= units(INFINITY_BITS as nat),
        a.is_finite() ==> -(units(INFINITY_BITS as nat) as int) < a.value() < units(INFINITY_BITS as nat),
{
    if a.is_finite() {
        lemma_units_increase(a.magnitude(), INFINITY_BITS as nat);
    }
}

/// A greater addend does not give a smaller sum.
pub proof fn law_sum_is_monotonic(a: Binary64, b: Binary64, c: Binary64)
    requires
        !greater(a, b),
    ensures
        !greater(sum(a, c), sum(b, c)),
        !greater(sum(c, a), sum(c, b)),
{
    law_sum_commutes(a, c);
    law_sum_commutes(b, c);
    reveal(sum);
    reveal(greater);
    let (s, t) = (sum(a, c), sum(b, c));
    if !s.is_nan() && !t.is_nan() {
        lemma_within_infinities(a);
        lemma_within_infinities(b);
        lemma_within_infinities(s);
        lemma_within_infinities(t);
        if a.is_finite() && b.is_finite() && c.is_finite() {
            let (v, w) = (a.value() + c.value(), b.value() + c.value());
            lemma_rounded_order(
                v,
                w,
                if v == 0 {
                    a.is_negative() && c.is_negative()
                } else {
                    v < 0
                },
                if w == 0 {
                    b.is_negative() && c.is_negative()
                } else {
                    w < 0
                },
            );
        }
    }
}

/// Of numbers without a sign, a greater dividend does not give a smaller quotient.
pub proof fn law_quotient_is_monotonic(a: Binary64, b: Binary64, d: Binary64)
    requires
        unsigned(a),
        unsigned(b),
        unsigned(d),
        a.magnitude() <= b.magnitude(),
    ensures
        quotient(a, d).is_nan() || quotient(b, d).is_nan() || (unsigned(quotient(a, d)) && unsigned(
            quotient(b, d),
        ) && quotient(a, d).magnitude() <= quotient(b, d).magnitude()),
        !greater(quotient(a, d), quotient(b, d)),
{
    reveal(quotient);
    reveal(greater);
    let (x, y) = (quotient(a, d), quotient(b, d));
    let (u, v) = (units(a.magnitude()), units(b.magnitude()));
    let (k, w) = (pow2(1074), units(d.magnitude()));
    if a.magnitude() < b.magnitude() {
        lemma_units_increase(a.magnitude(), b.magnitude());
    }
    assert(u * k <= v * k) by (nonlinear_arith)
        requires
            u <= v,
    ;
    lemma_rounded_max(u * k, w);
    lemma_rounded_max(v * k, w);
    if d.is_finite() && !d.is_zero() {
        lemma_units_increase(0, d.magnitude());
        law_rounding_is_monotonic(u * k, v * k, w);
    }
    if x.magnitude() < y.magnitude() {
        lemma_units_increase(x.magnitude(), y.magnitude());
    }
}

/// The further two numbers are apart, the further their difference is from zero.
pub proof fn law_difference_grows(a: Binary64, b: Binary64, c: Binary64)
    requires
        a.is_finite(),
        b.is_finite(),
        c.is_finite(),
        distance(a.value() - c.value()) <= distance(b.value() - c.value()),
    ensures
        !difference(a, c).is_nan(),
        !difference(b, c).is_nan(),
        difference(a, c).magnitude() <= difference(b, c).magnitude(),
{
    reveal(sum);
    let (v, w) = (distance(a.value() - c.value()), distance(b.value() - c.value()));
    assert(opposite(c).value() == -c.value());
    law_rounding_is_monotonic(v, w, 1);
    lemma_rounded_max(v, 1);
    lemma_rounded_max(w, 1);
}

/// A square has no sign, and grows with the distance from zero.
pub proof fn law_square_grows(a: Binary64, b: Binary64)
    requires
        !a.is_nan(),
        !b.is_nan(),
        a.magnitude() <= b.magnitude(),
    ensures
        unsigned(product(a, a)),
        unsigned(product(b, b)),
        product(a, a).magnitude() <= product(b, b).magnitude(),
{
    reveal(product);
    let (u, v, k) = (units(a.magnitude()), units(b.magnitude()), pow2(1074));
    if a.magnitude() < b.magnitude() {
        lemma_units_increase(a.magnitude(), b.magnitude());
    }
    assert(u * u <= v * v) by (nonlinear_arith)
        requires
            u <= v,
    ;
    lemma_pow2_pos(1074);
    lemma_rounded_max(u * u, k);
    lemma_rounded_max(v * v, k);
    law_rounding_is_monotonic(u * u, v * v, k);
}

/// What a sum is off by, in units of `2^-1074`.
pub open spec fn sum_error(a: Binary64, b: Binary64) -> int {
    sum(a, b).value() - (a.value() + b.value())
}

/// What a quotient is off by, times the divisor, in units of `2^-2148`.
pub open spec fn quotient_error(a: Binary64, b: Binary64) -> int {
    quotient(a, b).value() * b.value() - a.value() * pow2(1074)
}

/// What a product is off by, in units of `2^-2148`.
pub open spec fn product_error(a: Binary64, b: Binary64) -> int {
    product(a, b).value() * pow2(1074) - a.value() * b.value()
}

/// Whether `off` is no more than one part in `2^53` of `v`.
pub open spec fn negligible(off: int, v: int) -> bool {
    distance(off) * 0x0020_0000_0000_0000 <= distance(v)
}

/// A sum of finite numbers that is finite is off by no more than one part in
/// `2^53`.
pub proof fn law_sum_error(a: Binary64, b: Binary64)
    requires
        a.is_finite(),
        b.is_finite(),
        sum(a, b).is_finite(),
    ensures
        negligible(sum_error(a, b), a.value() + b.value()),
{
    reveal(sum);
    let v = a.value() + b.value();
    lemma_rounded_max(distance(v), 1);
    lemma_rounded_zero(1);
    law_rounding_error(distance(v), 1);
}

/// A quotient of finite numbers that is finite is off by no more than one part in
/// `2^53`, or, among the subnormals, by no more than half a unit.
pub proof fn law_quotient_error(a: Binary64, b: Binary64)
    requires
        a.is_finite(),
        b.is_finite(),
        !b.is_zero(),
        quotient(a, b).is_finite(),
    ensures
        negligible(quotient_error(a, b), a.value() * pow2(1074)) || 2 * distance(quotient_error(a, b))
            <= distance(b.value()),
{
    reveal(quotient);
    let (u, w, k) = (units(a.magnitude()), units(b.magnitude()), pow2(1074));
    let q = quotient(a, b);
    let m = units(q.magnitude());
    lemma_units_increase(0, b.magnitude());
    lemma_rounded_max(u * k, w);
    law_rounding_error(u * k, w);
    let off = u * k - m * w;
    assert(a.value() * k == u * k || a.value() * k == -(u * k)) by (nonlinear_arith)
        requires
            a.value() == u || a.value() == -u,
    ;
    assert(quotient_error(a, b) == off || quotient_error(a, b) == -off) by {
        let (x, y, z) = (a.value(), b.value(), q.value());
        let (na, nb) = (a.is_negative(), b.is_negative());
        assert(z * y - x * k == u * k - m * w || z * y - x * k == m * w - u * k) by (nonlinear_arith)
            requires
                x == if na { -u } else { u as int },
                y == if nb { -w } else { w as int },
                z == if na != nb { -m } else { m as int },
        ;
    }
    assert(u * k >= 0) by (nonlinear_arith);
}

/// A product of finite numbers that is finite is off by no more than one part in
/// `2^53`, or, among the subnormals, by no more than half a unit.
pub proof fn law_product_error(a: Binary64, b: Binary64)
    requires
        a.is_finite(),
        b.is_finite(),
        product(a, b).is_finite(),
    ensures
        negligible(product_error(a, b), a.value() * b.value()) || 2 * distance(product_error(a, b)) <= pow2(1074),
{
    reveal(product);
    let (u, w, k) = (units(a.magnitude()), units(b.magnitude()), pow2(1074));
    let r = product(a, b);
    let m = units(r.magnitude());
    lemma_pow2_pos(1074);
    lemma_rounded_max(u * w, k);
    law_rounding_error(u * w, k);
    let (x, y, z) = (a.value(), b.value(), r.value());
    let (na, nb) = (a.is_negative(), b.is_negative());
    assert((x * y == u * w && z * k - x * y == m * k - u * w) || (x * y == -(u * w) && z * k - x * y == u * w - m
        * k)) by (nonlinear_arith)
        requires
            x == if na { -u } else { u as int },
            y == if nb { -w } else { w as int },
            z == if na != nb { -m } else { m as int },
    ;
    assert(u * w >= 0) by (nonlinear_arith);
}

} // verus!
