//! Binary64 numbers as real numbers, and how far each operation is from the real
//! one.

use vstd::prelude::*;
use vstd::arithmetic::power2::*;
use crate::binary64::{
    distance, law_product_error, law_quotient_error, law_sum_error, negligible, opposite, product,
    product_error, quotient, quotient_error, sum, sum_error, Binary64,
};
use crate::rounding::{lemma_pow2_le, lemma_rounded_at_most, lemma_units_increase, units};

verus! {

/// The real number that a finite binary64 is.
pub open spec fn number(a: Binary64) -> real {
    a.value() as real / pow2(1074) as real
}

/// The distance of a real number from zero.
pub open spec fn abs(x: real) -> real {
    if x < (0 as real) {
        -x
    } else {
        x
    }
}

/// The greatest relative error of an operation: `2^-53`.
pub open spec fn eps() -> real {
    (1 as real) / (0x0020_0000_0000_0000 as real)
}

/// The greatest absolute error of an operation among the subnormals: `2^-1075`.
pub open spec fn tiny() -> real {
    (1 as real) / (2 * pow2(1074)) as real
}

/// Both errors are above zero and small.
pub proof fn lemma_small()
    ensures
        (0 as real) < eps(),
        eps() * (1024 as real) < (1 as real),
        (0 as real) < tiny(),
        tiny() * (1024 as real) < (1 as real),
        pow2(1074) as real > (0 as real),
{
    lemma_pow2_pos(1074);
    lemma2_to64();
    lemma_pow2_strictly_increases(32, 1074);
    let k = pow2(1074) as real;
    let t = (2 * pow2(1074)) as real;
    assert(t == (2 as real) * k);
    assert((0 as real) < (1 as real) / t && ((1 as real) / t) * (1024 as real) < (1 as real)) by (nonlinear_arith)
        requires
            t > (2048 as real),
    ;
    assert((0 as real) < eps() && eps() * (1024 as real) < (1 as real)) by (nonlinear_arith)
        requires
            eps() == (1 as real) / (9007199254740992 as real),
    ;
}

/// A product of integers as a product of real numbers.
pub proof fn lemma_real_product(x: int, y: int)
    ensures
        (x * y) as real == (x as real) * (y as real),
{
    assert((x * y) as real == (x as real) * (y as real)) by (nonlinear_arith);
}

/// The number times the units of one is the number of units.
pub proof fn lemma_number(a: Binary64)
    ensures
        number(a) * (pow2(1074) as real) == a.value() as real,
        number(opposite(a)) == -number(a),
        a.value() > 0 <==> number(a) > (0 as real),
        a.value() == 0 <==> number(a) == (0 as real),
{
    lemma_small();
    let (x, k) = (a.value() as real, pow2(1074) as real);
    assert((x / k) * k == x) by (nonlinear_arith)
        requires
            k > (0 as real),
    ;
    assert((-x) / k == -(x / k)) by (nonlinear_arith)
        requires
            k > (0 as real),
    ;
    assert((x > (0 as real) <==> x / k > (0 as real)) && (x == (0 as real) <==> x / k == (0 as real))) by (nonlinear_arith)
        requires
            k > (0 as real),
    ;
    assert(opposite(a).value() == -a.value());
}

/// Numbers are ordered as their units are.
pub proof fn lemma_number_order(a: Binary64, b: Binary64)
    ensures
        a.value() < b.value() <==> number(a) < number(b),
        a.value() == b.value() <==> number(a) == number(b),
{
    lemma_small();
    let (x, y, k) = (a.value() as real, b.value() as real, pow2(1074) as real);
    assert((x < y <==> x / k < y / k) && (x == y <==> x / k == y / k)) by (nonlinear_arith)
        requires
            k > (0 as real),
    ;
}

/// A negligible number of units is negligible as a real number.
pub proof fn lemma_negligible(off: int, v: int, k: real)
    requires
        negligible(off, v),
        k > (0 as real),
    ensures
        abs(off as real / k) <= eps() * abs(v as real / k),
{
    let (x, y) = (distance(off) as real, distance(v) as real);
    lemma_real_product(distance(off) as int, 0x0020_0000_0000_0000);
    assert(x * (0x0020_0000_0000_0000 as real) <= y);
    assert(abs(off as real / k) == x / k) by (nonlinear_arith)
        requires
            k > (0 as real),
            x == if (off as real) >= (0 as real) { off as real } else { -(off as real) },
            abs(off as real / k) == if off as real / k < (0 as real) { -(off as real / k) } else { off as real / k },
    ;
    assert(abs(v as real / k) == y / k) by (nonlinear_arith)
        requires
            k > (0 as real),
            y == if (v as real) >= (0 as real) { v as real } else { -(v as real) },
            abs(v as real / k) == if v as real / k < (0 as real) { -(v as real / k) } else { v as real / k },
    ;
    assert(x / k <= eps() * (y / k)) by (nonlinear_arith)
        requires
            k > (0 as real),
            x * (9007199254740992 as real) <= y,
            eps() == (1 as real) / (9007199254740992 as real),
    ;
}

/// A finite sum is the real one but for one part in `2^53`.
pub proof fn law_sum_is_accurate(a: Binary64, b: Binary64)
    requires
        a.is_finite(),
        b.is_finite(),
        sum(a, b).is_finite(),
    ensures
        abs(number(sum(a, b)) - (number(a) + number(b))) <= eps() * abs(number(a) + number(b)),
{
    lemma_small();
    law_sum_error(a, b);
    let k = pow2(1074) as real;
    let (x, y, z) = (a.value() as real, b.value() as real, sum(a, b).value() as real);
    lemma_negligible(sum_error(a, b), a.value() + b.value(), k);
    assert(z / k - (x / k + y / k) == (z - (x + y)) / k && x / k + y / k == (x + y) / k) by (nonlinear_arith)
        requires
            k > (0 as real),
    ;
}

/// A finite product is the real one but for one part in `2^53` and half a unit.
pub proof fn law_product_is_accurate(a: Binary64, b: Binary64)
    requires
        a.is_finite(),
        b.is_finite(),
        product(a, b).is_finite(),
    ensures
        abs(number(product(a, b)) - number(a) * number(b)) <= eps() * abs(number(a) * number(b)) + tiny(),
{
    lemma_small();
    law_product_error(a, b);
    let k = pow2(1074) as real;
    let kk = k * k;
    let (x, y, z) = (a.value() as real, b.value() as real, product(a, b).value() as real);
    let e = product_error(a, b);
    assert(kk > (0 as real)) by (nonlinear_arith)
        requires
            k > (0 as real),
            kk == k * k,
    ;
    lemma_real_product(a.value(), b.value());
    lemma_real_product(product(a, b).value(), pow2(1074) as int);
    assert(e as real == z * k - x * y);
    assert(z / k - (x / k) * (y / k) == (z * k - x * y) / kk && (x / k) * (y / k) == (x * y) / kk) by (nonlinear_arith)
        requires
            k > (0 as real),
            kk == k * k,
    ;
    let p = eps() * abs((x * y) / kk);
    assert(p >= (0 as real)) by (nonlinear_arith)
        requires
            p == eps() * abs((x * y) / kk),
            eps() > (0 as real),
            abs((x * y) / kk) >= (0 as real),
    ;
    if negligible(e, a.value() * b.value()) {
        lemma_negligible(e, a.value() * b.value(), kk);
    } else {
        lemma_half_unit(e, k);
    }
}

/// Half a unit, as a real number.
proof fn lemma_half_unit(e: int, k: real)
    requires
        k == pow2(1074) as real,
        2 * distance(e) <= pow2(1074),
    ensures
        abs(e as real / (k * k)) <= tiny(),
{
    lemma_small();
    let x = e as real;
    let kk = k * k;
    let t = (2 * pow2(1074)) as real;
    assert(t == (2 as real) * k);
    assert((2 as real) * x <= k && -((2 as real) * x) <= k);
    assert(kk > (0 as real)) by (nonlinear_arith)
        requires
            k > (0 as real),
            kk == k * k,
    ;
    assert(k / ((2 as real) * kk) == (1 as real) / t) by (nonlinear_arith)
        requires
            k > (0 as real),
            kk == k * k,
            t == (2 as real) * k,
    ;
    assert(x / kk <= k / ((2 as real) * kk) && -(x / kk) <= k / ((2 as real) * kk)) by (nonlinear_arith)
        requires
            kk > (0 as real),
            (2 as real) * x <= k,
            -((2 as real) * x) <= k,
    ;
}

/// A finite quotient is the real one but for one part in `2^53` and half a unit.
pub proof fn law_quotient_is_accurate(a: Binary64, b: Binary64)
    requires
        a.is_finite(),
        b.is_finite(),
        !b.is_zero(),
        quotient(a, b).is_finite(),
    ensures
        number(b) != (0 as real),
        abs(number(quotient(a, b)) - number(a) / number(b)) <= eps() * abs(number(a) / number(b)) + tiny(),
{
    lemma_small();
    lemma_number(b);
    lemma_units_increase(0, b.magnitude());
    law_quotient_error(a, b);
    let k = pow2(1074) as real;
    let (x, y, z) = (a.value() as real, b.value() as real, quotient(a, b).value() as real);
    let e = quotient_error(a, b);
    lemma_real_product(quotient(a, b).value(), b.value());
    lemma_real_product(a.value(), pow2(1074) as int);
    assert(e as real == z * y - x * k);
    assert(y != (0 as real));
    let yk = y * k;
    let d = distance(b.value()) as real;
    let dk = d * k;
    assert(d > (0 as real));
    assert(dk > (0 as real)) by (nonlinear_arith)
        requires
            d > (0 as real),
            k > (0 as real),
            dk == d * k,
    ;
    assert(yk == dk || yk == -dk) by (nonlinear_arith)
        requires
            y == d || y == -d,
            yk == y * k,
            dk == d * k,
    ;
    assert((x / k) / (y / k) == (x * k) / yk && z / k - (x / k) / (y / k) == (z * y - x * k) / yk) by (nonlinear_arith)
        requires
            k > (0 as real),
            y != (0 as real),
            yk == y * k,
    ;
    let (er, xr) = (e as real, x * k);
    assert(abs(er / yk) == abs(er / dk) && abs(xr / yk) == abs(xr / dk)) by {
        assert(er / (-dk) == -(er / dk) && xr / (-dk) == -(xr / dk)) by (nonlinear_arith)
            requires
                dk > (0 as real),
        ;
    }
    let p = eps() * abs(xr / yk);
    assert(p >= (0 as real)) by (nonlinear_arith)
        requires
            p == eps() * abs(xr / yk),
            eps() > (0 as real),
            abs(xr / yk) >= (0 as real),
    ;
    if negligible(e, a.value() * pow2(1074)) {
        lemma_negligible(e, a.value() * pow2(1074), dk);
    } else {
        let t = (2 * pow2(1074)) as real;
        assert((2 as real) * er <= d && -((2 as real) * er) <= d);
        assert(er / dk <= (1 as real) / t && -(er / dk) <= (1 as real) / t) by (nonlinear_arith)
            requires
                (2 as real) * er <= d,
                -((2 as real) * er) <= d,
                d > (0 as real),
                k > (0 as real),
                dk == d * k,
                t == (2 as real) * k,
        ;
    }
}

/// Whether a number is finite and no more than `2^e` away from zero.
pub open spec fn up_to(a: Binary64, e: int) -> bool {
    a.is_finite() && distance(a.value()) <= pow2((1074 + e) as nat)
}

/// Whether a number is finite and `2^e` at least.
pub open spec fn from_on(a: Binary64, e: int) -> bool {
    a.is_finite() && a.value() >= pow2((1074 + e) as nat)
}

/// A sum that is finite has finite addends.
pub proof fn lemma_finite_sum(a: Binary64, b: Binary64)
    requires
        sum(a, b).is_finite(),
    ensures
        a.is_finite(),
        b.is_finite(),
{
    reveal(sum);
}

/// A product that is finite has finite factors.
pub proof fn lemma_finite_product(a: Binary64, b: Binary64)
    requires
        product(a, b).is_finite(),
    ensures
        a.is_finite(),
        b.is_finite(),
{
    reveal(product);
}

/// A quotient that is finite has a finite dividend.
pub proof fn lemma_finite_quotient(a: Binary64, b: Binary64)
    requires
        quotient(a, b).is_finite(),
    ensures
        a.is_finite(),
{
    reveal(quotient);
}

/// The distance of a finite number from zero is its magnitude.
proof fn lemma_distance(a: Binary64)
    ensures
        distance(a.value()) == units(a.magnitude()),
{
}

/// A sum of bounded numbers is bounded.
pub proof fn lemma_sum_up_to(a: Binary64, b: Binary64, e: int)
    requires
        up_to(a, e),
        up_to(b, e),
        -1074 <= e < 1023,
    ensures
        up_to(sum(a, b), e + 1),
        up_to(sum(a, opposite(b)), e + 1),
{
    reveal(sum);
    let f = (1074 + e) as nat;
    lemma_pow2_unfold(f + 1);
    assert(opposite(b).value() == -b.value());
    lemma_rounded_at_most(distance(a.value() + b.value()), 1, f + 1);
    lemma_rounded_at_most(distance(a.value() - b.value()), 1, f + 1);
    lemma_distance(sum(a, b));
    lemma_distance(sum(a, opposite(b)));
}

/// A product of bounded numbers is bounded.
pub proof fn lemma_product_up_to(a: Binary64, b: Binary64, e: int, f: int)
    requires
        up_to(a, e),
        up_to(b, f),
        -1074 <= e,
        -1074 <= f,
        -1074 <= e + f < 1024,
    ensures
        up_to(product(a, b), e + f),
{
    reveal(product);
    let (x, y, z) = ((1074 + e) as nat, (1074 + f) as nat, (1074 + e + f) as nat);
    let (u, w, k) = (units(a.magnitude()), units(b.magnitude()), pow2(1074));
    lemma_distance(a);
    lemma_distance(b);
    lemma_pow2_pos(1074);
    lemma_pow2_adds(x, y);
    lemma_pow2_adds(z, 1074);
    assert(u * w <= pow2(z) * k) by (nonlinear_arith)
        requires
            u <= pow2(x),
            w <= pow2(y),
            pow2(x) * pow2(y) == pow2(z) * k,
    ;
    lemma_rounded_at_most(u * w, k, z);
    lemma_distance(product(a, b));
}

/// A quotient of a bounded number by one that is not small is bounded.
pub proof fn lemma_quotient_up_to(a: Binary64, b: Binary64, e: int, f: int)
    requires
        up_to(a, e),
        from_on(b, f),
        -1074 <= e,
        -1074 <= f,
        -1074 <= e - f < 1024,
    ensures
        up_to(quotient(a, b), e - f),
{
    reveal(quotient);
    let (x, y, z) = ((1074 + e) as nat, (1074 + f) as nat, (1074 + e - f) as nat);
    let (u, w, k) = (units(a.magnitude()), units(b.magnitude()), pow2(1074));
    lemma_distance(a);
    lemma_distance(b);
    lemma_pow2_pos(y);
    lemma_pow2_adds(x, 1074);
    lemma_pow2_adds(z, y);
    assert(u * k <= pow2(z) * w) by (nonlinear_arith)
        requires
            u <= pow2(x),
            w >= pow2(y),
            pow2(x) * k == pow2(z) * pow2(y),
    ;
    lemma_rounded_at_most(u * k, w, z);
    lemma_distance(quotient(a, b));
}

/// A bound by a power of two holds by any greater one.
pub proof fn lemma_up_to_more(a: Binary64, e: int, f: int)
    requires
        up_to(a, e),
        -1074 <= e <= f,
    ensures
        up_to(a, f),
{
    lemma_pow2_le((1074 + e) as nat, (1074 + f) as nat);
}

/// Multiplying by what is not below zero keeps the order.
pub proof fn lemma_times_keeps_order(a: real, b: real, c: real)
    requires
        a <= b,
        c >= (0 as real),
    ensures
        a * c <= b * c,
        c * a <= c * b,
{
    assert(a * c <= b * c && c * a <= c * b) by (nonlinear_arith)
        requires
            a <= b,
            c >= (0 as real),
    ;
}

/// A factor above zero can be taken out of both sides.
pub proof fn lemma_cancel_factor(a: real, b: real, c: real)
    requires
        c * a <= c * b,
        c > (0 as real),
    ensures
        a <= b,
{
    if a > b {
        assert(c * a > c * b) by (nonlinear_arith)
            requires
                a > b,
                c > (0 as real),
        ;
    }
}

} // verus!
