//! The divergence without rounding.
//!
//! What holds of the divergence in real arithmetic holds of the rounded one up to
//! the errors of its operations. This module states the first exactly, over whole
//! numbers of units, and says what the second differs by.

use vstd::prelude::*;
use vstd::arithmetic::power2::*;
use crate::binary64::{
    difference, greater, opposite, product, product_error, quotient, quotient_error, signed, sum,
    sum_error, Binary64,
};
use crate::gaussian::{divergence, half, lemma_constants, lemma_twice, squared, two};

verus! {

/// `KL(N(mu1, var1) || N(mu2, var2))`, unrounded and times `2 * var2`, in units of
/// `2^-2148`: `var2 * (ln var2 - ln var1) + var1 - var2 + (mu1 - mu2)^2`.
pub open spec fn exact_divergence(
    mu1: Binary64,
    var1: Binary64,
    mu2: Binary64,
    var2: Binary64,
    ln_var1: Binary64,
    ln_var2: Binary64,
) -> int {
    let gap = mu1.value() - mu2.value();
    var2.value() * (ln_var2.value() - ln_var1.value()) + (var1.value() - var2.value()) * pow2(1074) + gap * gap
}

/// Whether the logarithms handed in keep above the tangent of the logarithm, which
/// they touch for equal variances only: `ln var2 - ln var1` is not below
/// `1 - var1 / var2`, and equals it exactly if the variances are equal.
pub open spec fn touches_the_tangent_once(
    var1: Binary64,
    var2: Binary64,
    ln_var1: Binary64,
    ln_var2: Binary64,
) -> bool {
    let rise = var2.value() * (ln_var2.value() - ln_var1.value());
    let tangent = (var2.value() - var1.value()) * pow2(1074);
    &&& rise >= tangent
    &&& rise == tangent <==> var1.value() == var2.value()
}

/// Without rounding, the divergence is never below zero, and it is zero exactly
/// between equal distributions.
pub proof fn law_exact_divergence_is_zero_only_from_itself(
    mu1: Binary64,
    var1: Binary64,
    mu2: Binary64,
    var2: Binary64,
    ln_var1: Binary64,
    ln_var2: Binary64,
)
    requires
        touches_the_tangent_once(var1, var2, ln_var1, ln_var2),
    ensures
        exact_divergence(mu1, var1, mu2, var2, ln_var1, ln_var2) >= 0,
        exact_divergence(mu1, var1, mu2, var2, ln_var1, ln_var2) == 0 <==> mu1.value() == mu2.value()
            && var1.value() == var2.value(),
{
    let (v1, v2, k) = (var1.value(), var2.value(), pow2(1074) as int);
    let gap = mu1.value() - mu2.value();
    assert((v1 - v2) * k == -((v2 - v1) * k)) by (nonlinear_arith);
    assert(gap * gap >= 0 && (gap * gap == 0 <==> gap == 0)) by (nonlinear_arith);
}

/// Without rounding, the divergence depends on the means by their distance alone:
/// shifting both or exchanging them leaves it as it is.
pub proof fn law_exact_divergence_depends_on_the_distance(
    mu1: Binary64,
    mu2: Binary64,
    shifted1: Binary64,
    shifted2: Binary64,
    var1: Binary64,
    var2: Binary64,
    ln_var1: Binary64,
    ln_var2: Binary64,
)
    ensures
        shifted1.value() - mu1.value() == shifted2.value() - mu2.value() ==> exact_divergence(
            shifted1,
            var1,
            shifted2,
            var2,
            ln_var1,
            ln_var2,
        ) == exact_divergence(mu1, var1, mu2, var2, ln_var1, ln_var2),
        exact_divergence(mu2, var1, mu1, var2, ln_var1, ln_var2) == exact_divergence(
            mu1,
            var1,
            mu2,
            var2,
            ln_var1,
            ln_var2,
        ),
{
    let (x, y) = (mu1.value() - mu2.value(), mu2.value() - mu1.value());
    assert(x * x == y * y) by (nonlinear_arith)
        requires
            y == -x,
    ;
}

/// Without rounding, scaling leaves the divergence as it is: the means by any
/// `a = n / d`, the variances by its square, with the same difference of
/// logarithms. As fractions over twice the second variance, the two are equal.
pub proof fn law_exact_divergence_scales(
    p: (Binary64, Binary64),
    q: (Binary64, Binary64),
    ln_p: Binary64,
    ln_q: Binary64,
    scaled_p: (Binary64, Binary64),
    scaled_q: (Binary64, Binary64),
    ln_scaled_p: Binary64,
    ln_scaled_q: Binary64,
    n: int,
    d: int,
)
    requires
        d != 0,
        scaled_p.0.value() * d == p.0.value() * n,
        scaled_q.0.value() * d == q.0.value() * n,
        scaled_p.1.value() * (d * d) == p.1.value() * (n * n),
        scaled_q.1.value() * (d * d) == q.1.value() * (n * n),
        ln_scaled_q.value() - ln_scaled_p.value() == ln_q.value() - ln_p.value(),
    ensures
        exact_divergence(scaled_p.0, scaled_p.1, scaled_q.0, scaled_q.1, ln_scaled_p, ln_scaled_q)
            * q.1.value() == exact_divergence(p.0, p.1, q.0, q.1, ln_p, ln_q) * scaled_q.1.value(),
{
    let k = pow2(1074) as int;
    let l = ln_q.value() - ln_p.value();
    let (v1, v2, s1, s2) = (p.1.value(), q.1.value(), scaled_p.1.value(), scaled_q.1.value());
    let (g, h) = (p.0.value() - q.0.value(), scaled_p.0.value() - scaled_q.0.value());
    let (dd, nn) = (d * d, n * n);
    let x = exact_divergence(p.0, p.1, q.0, q.1, ln_p, ln_q);
    let y = exact_divergence(scaled_p.0, scaled_p.1, scaled_q.0, scaled_q.1, ln_scaled_p, ln_scaled_q);
    assert(h * d == g * n) by (nonlinear_arith)
        requires
            g == p.0.value() - q.0.value(),
            h == scaled_p.0.value() - scaled_q.0.value(),
            scaled_p.0.value() * d == p.0.value() * n,
            scaled_q.0.value() * d == q.0.value() * n,
    ;
    assert((h * h) * dd == (g * g) * nn) by {
        assert((h * h) * (d * d) == (h * d) * (h * d)) by (nonlinear_arith);
        assert((g * g) * (n * n) == (g * n) * (g * n)) by (nonlinear_arith);
    }
    assert((s2 * l) * dd == (v2 * l) * nn) by (nonlinear_arith)
        requires
            s2 * dd == v2 * nn,
    ;
    assert(((s1 - s2) * k) * dd == ((v1 - v2) * k) * nn) by (nonlinear_arith)
        requires
            s1 * dd == v1 * nn,
            s2 * dd == v2 * nn,
    ;
    let (y1, y2, y3) = (s2 * l, (s1 - s2) * k, h * h);
    let (x1, x2, x3) = (v2 * l, (v1 - v2) * k, g * g);
    assert((y1 + y2 + y3) * dd == y1 * dd + y2 * dd + y3 * dd) by (nonlinear_arith);
    assert((x1 + x2 + x3) * nn == x1 * nn + x2 * nn + x3 * nn) by (nonlinear_arith);
    assert(y * dd == x * nn);
    // Both sides, times the square of the denominator.
    assert((y * v2) * dd == (x * s2) * dd) by {
        assert((y * v2) * dd == (y * dd) * v2) by (nonlinear_arith);
        assert((x * s2) * dd == x * (s2 * dd)) by (nonlinear_arith);
        assert((x * nn) * v2 == x * (v2 * nn)) by (nonlinear_arith);
    }
    assert(dd > 0) by (nonlinear_arith)
        requires
            dd == d * d,
            d != 0,
    ;
    assert(y * v2 == x * s2) by (nonlinear_arith)
        requires
            (y * v2) * dd == (x * s2) * dd,
            dd > 0,
    ;
}

/// The rounded divergence is the exact one but for the errors of its operations:
/// those of the differences of the means and of the logarithms, of the square, of
/// the sum above and the quotient by twice the variance, of halving, and of the
/// last two sums. Each is taken times what it is multiplied by on the way.
pub proof fn law_divergence_is_exact_but_for_rounding(
    mu1: Binary64,
    var1: Binary64,
    mu2: Binary64,
    var2: Binary64,
    ln_var1: Binary64,
    ln_var2: Binary64,
)
    requires
        var2.is_finite(),
        greater(var2, signed(false, 0)),
        product(two(), var2).is_finite(),
    ensures
        ({
            let k = pow2(1074) as int;
            let kl = divergence(mu1, var1, mu2, var2, ln_var1, ln_var2);
            let exact = exact_divergence(mu1, var1, mu2, var2, ln_var1, ln_var2);
            let gap = difference(mu1, mu2);
            let sq = squared(gap);
            let top = sum(var1, sq);
            let twice = product(two(), var2);
            let share = quotient(top, twice);
            let rise = difference(ln_var2, ln_var1);
            let spread = product(half(), rise);
            let gap_error = sum_error(mu1, opposite(mu2));
            let in_square = product_error(gap, gap) + gap_error * (2 * (mu1.value() - mu2.value()) + gap_error);
            let in_share = sum_error(var1, sq) * k + quotient_error(top, twice);
            let in_logarithms = var2.value() * sum_error(ln_var2, opposite(ln_var1));
            let in_total = sum_error(spread, share) + sum_error(sum(spread, share), opposite(half()));
            kl.value() * twice.value() * k == (exact + in_logarithms + in_square + in_share) * k + (product_error(
                half(),
                rise,
            ) + in_total * k) * twice.value()
        }),
{
    let k = pow2(1074) as int;
    let kl = divergence(mu1, var1, mu2, var2, ln_var1, ln_var2);
    let gap = difference(mu1, mu2);
    let sq = squared(gap);
    let top = sum(var1, sq);
    let twice = product(two(), var2);
    let share = quotient(top, twice);
    let rise = difference(ln_var2, ln_var1);
    let spread = product(half(), rise);
    lemma_constants();
    reveal(greater);
    let t2 = lemma_twice(var2);
    assert(opposite(mu2).value() == -mu2.value());
    assert(opposite(ln_var1).value() == -ln_var1.value());
    assert(opposite(half()).value() == -half().value());
    let (v1, v2, t, h) = (var1.value(), var2.value(), twice.value(), half().value());
    assert(t == 2 * v2 && 2 * h == k);
    let (g, g0, eg) = (gap.value(), mu1.value() - mu2.value(), sum_error(mu1, opposite(mu2)));
    let (l, l0, el) = (rise.value(), ln_var2.value() - ln_var1.value(), sum_error(ln_var2, opposite(ln_var1)));
    assert(g == g0 + eg && l == l0 + el);
    let (s, a, x, p) = (sq.value(), top.value(), share.value(), spread.value());
    let (es, ea) = (product_error(gap, gap), sum_error(var1, sq));
    let (ex, ep) = (quotient_error(top, twice), product_error(half(), rise));
    let e = sum_error(spread, share) + sum_error(sum(spread, share), opposite(half()));
    assert(kl.value() == p + x - h + e);
    // Each part, times what it is divided by.
    assert(s * k == g0 * g0 + (es + eg * (2 * g0 + eg))) by (nonlinear_arith)
        requires
            s * k - g * g == es,
            g == g0 + eg,
    ;
    assert(a * k == v1 * k + s * k + ea * k) by (nonlinear_arith)
        requires
            a == v1 + s + ea,
    ;
    assert(x * t == a * k + ex);
    assert((p * k) * t == (v2 * l0 + v2 * el) * k + ep * t) by (nonlinear_arith)
        requires
            p * k - h * l == ep,
            2 * h == k,
            t == 2 * v2,
            l == l0 + el,
    ;
    assert(h * t == v2 * k) by (nonlinear_arith)
        requires
            2 * h == k,
            t == 2 * v2,
    ;
    // And all of them together.
    let exact = exact_divergence(mu1, var1, mu2, var2, ln_var1, ln_var2);
    let rest = v2 * el + (es + eg * (2 * g0 + eg)) + (ea * k + ex);
    assert((v1 - v2) * k == v1 * k - v2 * k) by (nonlinear_arith);
    assert(exact + rest == v2 * l0 + v2 * el + x * t - h * t);
    let m = v2 * l0 + v2 * el;
    let (y, z) = (x * t, h * t);
    assert((p + x - h + e) * t * k == (p * k) * t + y * k - z * k + (e * k) * t) by (nonlinear_arith)
        requires
            y == x * t,
            z == h * t,
    ;
    assert((m + y - z) * k == m * k + y * k - z * k) by (nonlinear_arith);
    assert((ep + e * k) * t == ep * t + (e * k) * t) by (nonlinear_arith);
}

} // verus!
