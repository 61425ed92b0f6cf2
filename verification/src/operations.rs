//! What each operation on binary64 numbers gives, in real numbers.

use vstd::prelude::*;
use vstd::arithmetic::power2::*;
use crate::binary64::{
    distance, lemma_rounded_max, negligible, opposite, product, quotient, ratio, sum, Binary64,
};
use crate::conversions::lemma_whole_is_accurate;
use crate::reals::{
    abs, eps, from_on, law_product_is_accurate, law_quotient_is_accurate, law_sum_is_accurate,
    lemma_negligible, lemma_number, lemma_number_order, lemma_product_up_to, lemma_quotient_up_to,
    lemma_real_product, lemma_small, lemma_sum_up_to, number, tiny, up_to,
};
use crate::rounding::{law_rounding_error, lemma_rounded_at_most, units};

verus! {

/// `plus` adds, but for one part in `2^53`. An infinity stays what it is, and two
/// opposite ones, like anything with no number, give no number.
pub proof fn law_plus(a: Binary64, b: Binary64, r: Binary64)
    requires
        call_ensures(Binary64::plus, (a, b), r),
    ensures
        r.is_nan() <==> a.is_nan() || b.is_nan() || (a.is_infinite() && b.is_infinite() && a.is_negative()
            != b.is_negative()),
        !r.is_nan() && a.is_infinite() ==> r == a,
        !r.is_nan() && b.is_infinite() ==> r == b,
        a.is_finite() && b.is_finite() && r.is_finite() ==> abs(number(r) - (number(a) + number(b))) <= eps() * abs(
            number(a) + number(b),
        ),
        up_to(a, 1022) && up_to(b, 1022) ==> r.is_finite(),
{
    reveal(sum);
    if a.is_finite() && b.is_finite() {
        lemma_rounded_max(distance(a.value() + b.value()), 1);
        if r.is_finite() {
            law_sum_is_accurate(a, b);
        }
    }
    if up_to(a, 1022) && up_to(b, 1022) {
        lemma_sum_up_to(a, b, 1022);
    }
}

/// `minus` takes away what `plus` adds.
pub proof fn law_minus(a: Binary64, b: Binary64, r: Binary64)
    requires
        call_ensures(Binary64::minus, (a, b), r),
    ensures
        r.is_nan() <==> a.is_nan() || b.is_nan() || (a.is_infinite() && b.is_infinite() && a.is_negative()
            == b.is_negative()),
        !r.is_nan() && a.is_infinite() ==> r == a,
        a.is_finite() && b.is_finite() && r.is_finite() ==> abs(number(r) - (number(a) - number(b))) <= eps() * abs(
            number(a) - number(b),
        ),
        up_to(a, 1022) && up_to(b, 1022) ==> r.is_finite(),
{
    let c = opposite(b);
    reveal(sum);
    lemma_number(b);
    if a.is_finite() && b.is_finite() {
        lemma_rounded_max(distance(a.value() + c.value()), 1);
        if r.is_finite() {
            law_sum_is_accurate(a, c);
        }
    }
    if up_to(a, 1022) && up_to(b, 1022) {
        lemma_sum_up_to(a, b, 1022);
    }
}

/// `times` multiplies, but for one part in `2^53` and half a unit; its sign is
/// negative exactly if one of the two is.
pub proof fn law_times(a: Binary64, b: Binary64, r: Binary64)
    requires
        call_ensures(Binary64::times, (a, b), r),
    ensures
        r.is_nan() <==> a.is_nan() || b.is_nan() || (a.is_infinite() && b.is_zero()) || (a.is_zero()
            && b.is_infinite()),
        !r.is_nan() ==> (r.is_negative() <==> a.is_negative() != b.is_negative()),
        !r.is_nan() && (a.is_infinite() || b.is_infinite()) ==> r.is_infinite(),
        a.is_finite() && b.is_finite() && r.is_finite() ==> abs(number(r) - number(a) * number(b)) <= eps() * abs(
            number(a) * number(b),
        ) + tiny(),
        up_to(a, 511) && up_to(b, 511) ==> r.is_finite(),
{
    reveal(product);
    if a.is_finite() && b.is_finite() {
        lemma_rounded_max(units(a.magnitude()) * units(b.magnitude()), pow2(1074));
        if r.is_finite() {
            law_product_is_accurate(a, b);
        }
    }
    if up_to(a, 511) && up_to(b, 511) {
        lemma_product_up_to(a, b, 511, 511);
    }
}

/// `over` divides, but for one part in `2^53` and half a unit; its sign is negative
/// exactly if one of the two is.
pub proof fn law_over(a: Binary64, b: Binary64, r: Binary64)
    requires
        call_ensures(Binary64::over, (a, b), r),
    ensures
        r.is_nan() <==> a.is_nan() || b.is_nan() || (a.is_infinite() && b.is_infinite()) || (a.is_zero()
            && b.is_zero()),
        !r.is_nan() ==> (r.is_negative() <==> a.is_negative() != b.is_negative()),
        !r.is_nan() && (a.is_infinite() || b.is_zero()) ==> r.is_infinite(),
        !r.is_nan() && b.is_infinite() ==> r.is_zero(),
        a.is_finite() && b.is_finite() && !b.is_zero() && r.is_finite() ==> number(b) != (0 as real) && abs(
            number(r) - number(a) / number(b),
        ) <= eps() * abs(number(a) / number(b)) + tiny(),
        up_to(a, 511) && from_on(b, -511) ==> r.is_finite(),
{
    reveal(quotient);
    if a.is_finite() && b.is_finite() && !b.is_zero() {
        lemma_rounded_max(units(a.magnitude()) * pow2(1074), units(b.magnitude()));
        if r.is_finite() {
            law_quotient_is_accurate(a, b);
        }
    }
    if up_to(a, 511) && from_on(b, -511) {
        lemma_quotient_up_to(a, b, 511, -511);
    }
}

/// `negated` changes the sign and nothing else.
pub proof fn law_negated(a: Binary64, r: Binary64)
    requires
        call_ensures(Binary64::negated, (a,), r),
    ensures
        r.is_negative() <==> !a.is_negative(),
        r.magnitude() == a.magnitude(),
        number(r) == -number(a),
{
    lemma_number(a);
}

/// `exceeds` and `equals` compare the real numbers, with infinities beyond them;
/// nothing holds of what is no number.
pub proof fn law_comparisons(a: Binary64, b: Binary64, more: bool, equal: bool)
    requires
        call_ensures(Binary64::exceeds, (a, b), more),
        call_ensures(Binary64::equals, (a, b), equal),
    ensures
        a.is_nan() || b.is_nan() ==> !more && !equal,
        !a.is_nan() && !b.is_nan() ==> (more <==> number(a) > number(b)) && (equal <==> number(a) == number(b)),
{
    reveal(crate::binary64::greater);
    reveal(crate::binary64::same);
    lemma_number_order(b, a);
}

/// `max` gives one of two numbers, and neither is greater; what is no number is
/// passed over.
pub proof fn law_max(a: Binary64, b: Binary64, r: Binary64)
    requires
        call_ensures(Binary64::max, (a, b), r),
    ensures
        r == a || r == b,
        r.is_nan() <==> a.is_nan() && b.is_nan(),
        !a.is_nan() ==> number(r) >= number(a),
        !b.is_nan() ==> number(r) >= number(b),
{
    reveal(crate::binary64::greater);
    lemma_number_order(a, b);
    lemma_number_order(b, a);
}

/// `from_u64` gives the whole number, but for one part in `2^53`.
pub proof fn law_from_u64(n: u64, r: Binary64)
    requires
        call_ensures(Binary64::from_u64, (n,), r),
    ensures
        r.is_finite() && !r.is_negative(),
        abs(number(r) - n as real) <= eps() * (n as real),
{
    lemma2_to64();
    lemma_whole_is_accurate(n as nat, 64);
}

/// `from_ratio` gives the fraction, but for one part in `2^53`.
pub proof fn law_from_ratio(n: u64, d: u64, r: Binary64)
    requires
        call_ensures(Binary64::from_ratio, (n, d), r),
        d > 0,
    ensures
        r.is_finite() && !r.is_negative(),
        abs(number(r) - n as real / d as real) <= eps() * (n as real / d as real) + tiny(),
{
    lemma_ratio_is_accurate(n as nat, d as nat);
}

/// A fraction is held but for one part in `2^53`.
pub proof fn lemma_ratio_is_accurate(n: nat, d: nat)
    requires
        0 < d,
        n < 0x1_0000_0000_0000_0000,
    ensures
        ratio(n, d).is_finite() && !ratio(n, d).is_negative(),
        abs(number(ratio(n, d)) - n as real / d as real) <= eps() * (n as real / d as real) + tiny(),
{
    reveal(ratio);
    lemma_small();
    lemma2_to64();
    let k = pow2(1074);
    let r = ratio(n, d);
    lemma_pow2_pos(1074);
    lemma_pow2_adds(64, 1074);
    assert(n * k <= pow2(1138) * d) by (nonlinear_arith)
        requires
            n <= pow2(64),
            pow2(1138) == pow2(64) * k,
            d >= 1,
    ;
    lemma_rounded_at_most(n * k, d, 1138);
    law_rounding_error(n * k, d);
    let m = units(r.magnitude());
    let off = m * d - n * k;
    let (x, y, z, w) = (n as real, d as real, m as real, k as real);
    lemma_real_product(n as int, k as int);
    lemma_real_product(m as int, d as int);
    let wy = w * y;
    assert(wy > (0 as real)) by (nonlinear_arith)
        requires
            w > (0 as real),
            y > (0 as real),
            wy == w * y,
    ;
    assert(x / y == (x * w) / wy) by (nonlinear_arith)
        requires
            w > (0 as real),
            y > (0 as real),
            wy == w * y,
    ;
    assert(z / w == (z * y) / wy) by (nonlinear_arith)
        requires
            w > (0 as real),
            y > (0 as real),
            wy == w * y,
    ;
    let (zy, xw) = (z * y, x * w);
    assert(zy / wy - xw / wy == (zy - xw) / wy) by (nonlinear_arith)
        requires
            wy > (0 as real),
    ;
    assert(x / y >= (0 as real)) by (nonlinear_arith)
        requires
            x >= (0 as real),
            y > (0 as real),
    ;
    let p = eps() * (x / y);
    assert(p >= (0 as real)) by (nonlinear_arith)
        requires
            p == eps() * (x / y),
            eps() > (0 as real),
            x / y >= (0 as real),
    ;
    assert(n * k >= 0) by (nonlinear_arith);
    if negligible(off, n * k as int) {
        lemma_negligible(off, n * k as int, wy);
    } else {
        let o = off as real;
        let t = (2 * pow2(1074)) as real;
        assert((2 as real) * o <= y && -((2 as real) * o) <= y);
        assert(o / wy <= (1 as real) / t && -(o / wy) <= (1 as real) / t) by (nonlinear_arith)
            requires
                (2 as real) * o <= y,
                -((2 as real) * o) <= y,
                y > (0 as real),
                w > (0 as real),
                wy == w * y,
                t == (2 as real) * w,
        ;
    }
}

} // verus!
