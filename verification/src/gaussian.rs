//! Normal densities and the divergence between two of them.
//!
//! The natural logarithm is left to the platform. Each formula takes the
//! logarithms that it needs as arguments, beside the numbers that they were
//! taken of.

use vstd::prelude::*;
use vstd::arithmetic::power2::*;
use crate::binary64::{
    difference, distance, greater, law_difference_grows, law_difference_sign,
    law_difference_with_itself, law_product_exact, law_quotient_exact, law_quotient_is_monotonic,
    law_square_grows, law_sum_exact, law_sum_grows, law_sum_is_monotonic, lemma_rounded_max,
    not_a_number, opposite, product, quotient, quotient_error, signed, sum, sum_error, unsigned,
    Binary64,
};
use crate::rounding::{
    exponent, law_rounding_is_monotonic, lemma_held, lemma_rounded_exact, lemma_rounded_scale,
    lemma_rounded_at_most, lemma_rounded_scaled_up, lemma_rounded_zero, lemma_units_increase, lemma_units_parts,
    lemma_whole_scaled_up, rounded, significand, units, HIDDEN_BIT, INFINITY_BITS,
};

verus! {

/// One half.
pub open spec fn half() -> Binary64 {
    Binary64 { bits: 0x3fe0_0000_0000_0000 }
}

/// Minus one half.
pub open spec fn minus_half() -> Binary64 {
    Binary64 { bits: 0xbfe0_0000_0000_0000 }
}

/// Two.
pub open spec fn two() -> Binary64 {
    Binary64 { bits: 0x4000_0000_0000_0000 }
}

/// The binary64 nearest to twice the number pi.
pub open spec fn two_pi() -> Binary64 {
    Binary64 { bits: 0x4019_21fb_5444_2d18 }
}

/// `x * x`.
pub open spec fn squared(x: Binary64) -> Binary64 {
    product(x, x)
}

/// `KL(N(mu1, var1) || N(mu2, var2))` in nats, from the logarithms of the two
/// variances: `0.5 * (ln var2 - ln var1) + (var1 + (mu1 - mu2)^2) / (2 * var2) -
/// 0.5`, rounded after each operation.
pub open spec fn divergence(
    mu1: Binary64,
    var1: Binary64,
    mu2: Binary64,
    var2: Binary64,
    ln_var1: Binary64,
    ln_var2: Binary64,
) -> Binary64 {
    difference(
        sum(
            product(half(), difference(ln_var2, ln_var1)),
            quotient(sum(var1, squared(difference(mu1, mu2))), product(two(), var2)),
        ),
        half(),
    )
}

/// `2 * pi * var`: the number whose logarithm a log-density needs.
pub open spec fn normalizer(var: Binary64) -> Binary64 {
    product(two_pi(), var)
}

/// `log N(x | mu, var)`, from the logarithm of the normalizer: `-0.5 * ln(2 * pi
/// * var) - (x - mu)^2 / (2 * var)`, rounded after each operation.
pub open spec fn log_density(x: Binary64, mu: Binary64, var: Binary64, ln_normalizer: Binary64) -> Binary64 {
    difference(
        product(minus_half(), ln_normalizer),
        quotient(squared(difference(x, mu)), product(two(), var)),
    )
}

/// KL(N(mu1, var1) || N(mu2, var2)) in nats. `ln_var1` and `ln_var2` are meant to
/// be the logarithms of the variances.
pub fn kl_normal(
    mu1: Binary64,
    var1: Binary64,
    mu2: Binary64,
    var2: Binary64,
    ln_var1: Binary64,
    ln_var2: Binary64,
) -> (kl: Binary64)
    requires
        greater(var1, signed(false, 0)),
        greater(var2, signed(false, 0)),
    ensures
        kl == divergence(mu1, var1, mu2, var2, ln_var1, ln_var2),
{
    divergence_from(mu1, var1, mu2, var2, ln_var1, ln_var2)
}

/// The formula of [`kl_normal`], on whatever a market quotes: a variance of zero,
/// say, gives an infinity or no number.
pub(crate) fn divergence_from(
    mu1: Binary64,
    var1: Binary64,
    mu2: Binary64,
    var2: Binary64,
    ln_var1: Binary64,
    ln_var2: Binary64,
) -> (kl: Binary64)
    ensures
        kl == divergence(mu1, var1, mu2, var2, ln_var1, ln_var2),
{
    let half: Binary64 = Binary64 { bits: 0x3fe0_0000_0000_0000 };
    let two: Binary64 = Binary64 { bits: 0x4000_0000_0000_0000 };
    let gap: Binary64 = mu1.minus(mu2);
    let spread: Binary64 = half.times(ln_var2.minus(ln_var1));
    let shift: Binary64 = var1.plus(gap.times(gap)).over(two.times(var2));
    spread.plus(shift).minus(half)
}

/// The number whose logarithm `normal_log_pdf` takes: `2 * pi * var`.
pub fn log_pdf_normalizer(var: Binary64) -> (r: Binary64)
    ensures
        r == normalizer(var),
{
    Binary64 { bits: 0x4019_21fb_5444_2d18 }.times(var)
}

/// log N(x | mu, var), given the logarithm of [`log_pdf_normalizer`] of `var`.
pub fn normal_log_pdf(x: Binary64, mu: Binary64, var: Binary64, ln_normalizer: Binary64) -> (r: Binary64)
    ensures
        r == log_density(x, mu, var, ln_normalizer),
{
    let minus_half: Binary64 = Binary64 { bits: 0xbfe0_0000_0000_0000 };
    let two: Binary64 = Binary64 { bits: 0x4000_0000_0000_0000 };
    let gap: Binary64 = x.minus(mu);
    minus_half.times(ln_normalizer).minus(gap.times(gap).over(two.times(var)))
}

/// Twice a magnitude is one more in the exponent field, or twice the bits where
/// the field is empty. Beyond the greatest finite magnitude it is infinite.
proof fn lemma_doubled(m: nat) -> (t: nat)
    requires
        m < INFINITY_BITS,
    ensures
        t <= INFINITY_BITS,
        t < INFINITY_BITS ==> units(t) == 2 * units(m),
        rounded(2 * units(m), 1) == t,
        m > 0 ==> t > 0,
{
    lemma_units_parts(m);
    let t = if m < HIDDEN_BIT {
        2 * m
    } else {
        m + HIDDEN_BIT as nat
    };
    lemma_units_parts(t);
    lemma2_to64();
    if m >= HIDDEN_BIT {
        assert(exponent(t) == exponent(m) + 1);
        assert(significand(t) == significand(m));
        lemma_pow2_unfold(exponent(t));
        let s = significand(m);
        let p = pow2(exponent(m));
        assert(s * (2 * p) == 2 * (s * p)) by (nonlinear_arith);
    } else {
        assert(exponent(t) == 0 && significand(t) == t);
        assert(t * pow2(0) == t) by (nonlinear_arith)
            requires
                pow2(0) == 1,
        ;
    }
    assert(units(t) == 2 * units(m));
    if t <= INFINITY_BITS {
        lemma_rounded_exact(t);
        t
    } else {
        lemma_units_increase(INFINITY_BITS as nat, t);
        lemma_rounded_exact(INFINITY_BITS as nat);
        law_rounding_is_monotonic(units(INFINITY_BITS as nat), 2 * units(m), 1);
        lemma_rounded_max(2 * units(m), 1);
        INFINITY_BITS as nat
    }
}

/// Twice a positive number.
pub proof fn lemma_twice(var: Binary64) -> (t: nat)
    requires
        var.is_finite(),
        !var.is_negative(),
        !var.is_zero(),
    ensures
        0 < t <= INFINITY_BITS,
        t < INFINITY_BITS ==> units(t) == 2 * units(var.magnitude()),
        t == rounded(2 * units(var.magnitude()), 1),
        product(two(), var) == signed(false, t),
{
    lemma_constants();
    let u = units(var.magnitude());
    let t = lemma_doubled(var.magnitude());
    reveal(product);
    assert((2 * pow2(1074)) * u == (2 * u) * pow2(1074)) by (nonlinear_arith);
    lemma_pow2_pos(1074);
    lemma_rounded_scale(2 * u, 1, pow2(1074));
    assert(1 * pow2(1074) == pow2(1074));
    t
}

/// The constants in units: two is `2^1075` and one half is `2^1073`.
pub proof fn lemma_constants()
    ensures
        units(two().magnitude()) == 2 * pow2(1074),
        2 * units(half().magnitude()) == pow2(1074),
        units(minus_half().magnitude()) == units(half().magnitude()),
        half().is_finite(),
        two().is_finite(),
        minus_half().is_finite(),
        !half().is_negative(),
        !two().is_negative(),
        minus_half().is_negative(),
        units(half().magnitude()) > 0,
{
    lemma2_to64_rest();
    lemma_pow2_adds(52, 1021);
    lemma_pow2_adds(52, 1023);
    lemma_pow2_unfold(1074);
    lemma_pow2_unfold(1075);
    lemma_pow2_pos(1073);
}

/// A normal distribution does not diverge from itself: the divergence is zero,
/// exactly.
pub proof fn law_no_divergence_from_itself(mu: Binary64, var: Binary64, ln_var: Binary64)
    requires
        mu.is_finite(),
        var.is_finite(),
        greater(var, signed(false, 0)),
        product(two(), var).is_finite(),
        ln_var.is_finite(),
    ensures
        divergence(mu, var, mu, var, ln_var, ln_var) == signed(false, 0),
{
    let zero = signed(false, 0);
    lemma_constants();
    let m = var.magnitude();
    let u = units(m);
    assert(!var.is_negative() && m > 0 && u > 0) by {
        reveal(greater);
        if m > 0 {
            lemma_units_increase(0, m);
        }
    }
    // The logarithms and the means cancel.
    law_difference_with_itself(ln_var);
    assert(units(half().magnitude()) * 0 == 0 * pow2(1074)) by (nonlinear_arith);
    law_product_exact(half(), zero, zero);
    law_difference_with_itself(mu);
    assert(0 * 0 == 0 * pow2(1074)) by (nonlinear_arith);
    law_product_exact(zero, zero, zero);
    law_sum_exact(var, zero, var);
    // The variance over twice itself is one half.
    let t = lemma_twice(var);
    let twice = signed(false, t);
    let h = units(half().magnitude());
    assert(u * pow2(1074) == h * (2 * u)) by (nonlinear_arith)
        requires
            2 * h == pow2(1074),
    ;
    law_quotient_exact(var, twice, half());
    law_sum_exact(zero, half(), half());
    law_difference_with_itself(half());
}

/// At the mean, the log-density is minus half the logarithm of the normalizer,
/// exactly.
pub proof fn law_log_density_at_the_mean(mu: Binary64, var: Binary64, ln_normalizer: Binary64)
    requires
        mu.is_finite(),
        greater(var, signed(false, 0)),
    ensures
        log_density(mu, mu, var, ln_normalizer) == product(minus_half(), ln_normalizer),
{
    let zero = signed(false, 0);
    lemma_constants();
    law_difference_with_itself(mu);
    assert(0 * 0 == 0 * pow2(1074)) by (nonlinear_arith);
    law_product_exact(zero, zero, zero);
    let twice = product(two(), var);
    let p = product(minus_half(), ln_normalizer);
    assert(!var.is_negative() && var.magnitude() > 0 && !var.is_nan()) by {
        reveal(greater);
    }
    assert(!twice.is_negative() && !twice.is_nan() && !twice.is_zero()) by {
        if var.is_finite() {
            let t = lemma_twice(var);
        } else {
            reveal(product);
        }
    }
    assert(quotient(zero, twice) == zero) by {
        if twice.is_finite() {
            assert(0 * pow2(1074) == 0 * units(twice.magnitude())) by (nonlinear_arith);
            law_quotient_exact(zero, twice, zero);
        } else {
            reveal(quotient);
        }
    }
    // Taking zero away changes nothing.
    assert(p.is_nan() ==> p == not_a_number()) by {
        reveal(product);
    }
    reveal(sum);
    if p.is_finite() {
        lemma_rounded_exact(p.magnitude());
        if p.magnitude() > 0 {
            lemma_units_increase(0, p.magnitude());
        }
    }
}

/// Between two normal distributions of the same variance the divergence is
/// never below zero.
pub proof fn law_divergence_with_one_variance(mu1: Binary64, mu2: Binary64, var: Binary64, ln_var: Binary64)
    requires
        mu1.is_finite(),
        mu2.is_finite(),
        var.is_finite(),
        greater(var, signed(false, 0)),
        product(two(), var).is_finite(),
        ln_var.is_finite(),
    ensures
        !divergence(mu1, var, mu2, var, ln_var, ln_var).is_nan(),
        !greater(signed(false, 0), divergence(mu1, var, mu2, var, ln_var, ln_var)),
{
    let zero = signed(false, 0);
    lemma_constants();
    let m = var.magnitude();
    let u = units(m);
    assert(!var.is_negative() && m > 0 && u > 0) by {
        reveal(greater);
        if m > 0 {
            lemma_units_increase(0, m);
        }
    }
    law_difference_with_itself(ln_var);
    assert(units(half().magnitude()) * 0 == 0 * pow2(1074)) by (nonlinear_arith);
    law_product_exact(half(), zero, zero);
    // The squared gap is some number, and not below zero.
    let gap = difference(mu1, mu2);
    assert(!gap.is_nan()) by {
        reveal(sum);
        lemma_rounded_max(distance(mu1.value() + opposite(mu2).value()), 1);
    }
    let sq = squared(gap);
    assert(!sq.is_nan() && !sq.is_negative()) by {
        reveal(product);
        lemma_rounded_max(units(gap.magnitude()) * units(gap.magnitude()), pow2(1074));
    }
    // Adding it leaves the variance no smaller.
    let top = sum(var, sq);
    assert(!top.is_nan() && !top.is_negative() && top.magnitude() >= m) by {
        reveal(sum);
        if sq.is_finite() {
            let v = units(sq.magnitude());
            lemma_rounded_exact(m);
            law_rounding_is_monotonic(u, u + v, 1);
            lemma_rounded_max(u + v, 1);
        }
    }
    // So that it is at least one half of twice the variance.
    let t = lemma_twice(var);
    let twice = signed(false, t);
    let h = units(half().magnitude());
    let share = quotient(top, twice);
    assert(!share.is_nan() && !share.is_negative() && share.magnitude() >= half().magnitude()) by {
        reveal(quotient);
        if top.is_finite() {
            let w = units(top.magnitude());
            if top.magnitude() > m {
                lemma_units_increase(m, top.magnitude());
            }
            assert(u * pow2(1074) == h * (2 * u)) by (nonlinear_arith)
                requires
                    2 * h == pow2(1074),
            ;
            law_quotient_exact(var, twice, half());
            assert(u * pow2(1074) <= w * pow2(1074)) by (nonlinear_arith)
                requires
                    u <= w,
            ;
            law_rounding_is_monotonic(u * pow2(1074), w * pow2(1074), 2 * u);
            lemma_rounded_max(w * pow2(1074), 2 * u);
        }
    }
    if share.magnitude() > half().magnitude() {
        lemma_units_increase(half().magnitude(), share.magnitude());
    }
    if share.is_finite() {
        law_sum_exact(zero, share, share);
        law_difference_sign(share, half());
        reveal(greater);
    } else {
        reveal(sum);
        reveal(greater);
    }
}

/// Exchanging two numbers leaves the square of their difference as it is.
proof fn lemma_squared_gap(a: Binary64, b: Binary64)
    ensures
        squared(difference(a, b)) == squared(difference(b, a)),
{
    reveal(sum);
    reveal(product);
    assert(opposite(a).value() == -a.value());
    assert(opposite(b).value() == -b.value());
    lemma_rounded_max(distance(a.value() - b.value()), 1);
}

/// Exchanging the means leaves the divergence as it is; only the variances are
/// not interchangeable.
pub proof fn law_divergence_with_means_exchanged(
    mu1: Binary64,
    var1: Binary64,
    mu2: Binary64,
    var2: Binary64,
    ln_var1: Binary64,
    ln_var2: Binary64,
)
    ensures
        divergence(mu2, var1, mu1, var2, ln_var1, ln_var2) == divergence(
            mu1,
            var1,
            mu2,
            var2,
            ln_var1,
            ln_var2,
        ),
{
    lemma_squared_gap(mu1, mu2);
}

/// Shifting both means by the same amount leaves the divergence as it is, where
/// the shifted means are not rounded.
pub proof fn law_divergence_with_means_shifted(
    mu1: Binary64,
    mu2: Binary64,
    shifted1: Binary64,
    shifted2: Binary64,
    var1: Binary64,
    var2: Binary64,
    ln_var1: Binary64,
    ln_var2: Binary64,
)
    requires
        mu1.is_finite(),
        mu2.is_finite(),
        shifted1.is_finite(),
        shifted2.is_finite(),
        shifted1.value() - mu1.value() == shifted2.value() - mu2.value(),
    ensures
        divergence(shifted1, var1, shifted2, var2, ln_var1, ln_var2) == divergence(
            mu1,
            var1,
            mu2,
            var2,
            ln_var1,
            ln_var2,
        ),
{
    let (g, h) = (difference(mu1, mu2), difference(shifted1, shifted2));
    assert(squared(g) == squared(h)) by {
        reveal(sum);
        reveal(product);
        assert(opposite(mu2).value() == -mu2.value());
        assert(opposite(shifted2).value() == -shifted2.value());
        lemma_rounded_max(distance(mu1.value() - mu2.value()), 1);
    }
}

/// Scaling leaves the divergence as it is: beside the difference of the
/// logarithms, it depends on nothing but the ratio of `var1 + (mu1 - mu2)^2` to
/// `2 * var2`, both taken as they are rounded.
pub proof fn law_divergence_depends_on_the_ratio(
    p: (Binary64, Binary64),
    q: (Binary64, Binary64),
    ln_p: Binary64,
    ln_q: Binary64,
    scaled_p: (Binary64, Binary64),
    scaled_q: (Binary64, Binary64),
    ln_scaled_p: Binary64,
    ln_scaled_q: Binary64,
)
    requires
        ({
            let top = sum(p.1, squared(difference(p.0, q.0)));
            let bottom = product(two(), q.1);
            let scaled_top = sum(scaled_p.1, squared(difference(scaled_p.0, scaled_q.0)));
            let scaled_bottom = product(two(), scaled_q.1);
            &&& unsigned(top) && top.is_finite()
            &&& unsigned(scaled_top) && scaled_top.is_finite()
            &&& unsigned(bottom) && bottom.is_finite() && !bottom.is_zero()
            &&& unsigned(scaled_bottom) && scaled_bottom.is_finite() && !scaled_bottom.is_zero()
            &&& scaled_top.value() * bottom.value() == top.value() * scaled_bottom.value()
        }),
        difference(ln_scaled_q, ln_scaled_p) == difference(ln_q, ln_p),
    ensures
        divergence(scaled_p.0, scaled_p.1, scaled_q.0, scaled_q.1, ln_scaled_p, ln_scaled_q) == divergence(
            p.0,
            p.1,
            q.0,
            q.1,
            ln_p,
            ln_q,
        ),
{
    let top = sum(p.1, squared(difference(p.0, q.0)));
    let bottom = product(two(), q.1);
    let scaled_top = sum(scaled_p.1, squared(difference(scaled_p.0, scaled_q.0)));
    let scaled_bottom = product(two(), scaled_q.1);
    let (n, d) = (units(top.magnitude()), units(bottom.magnitude()));
    let (sn, sd) = (units(scaled_top.magnitude()), units(scaled_bottom.magnitude()));
    let k = pow2(1074);
    assert(quotient(top, bottom) == quotient(scaled_top, scaled_bottom)) by {
        reveal(quotient);
        lemma_units_increase(0, bottom.magnitude());
        lemma_units_increase(0, scaled_bottom.magnitude());
        lemma_rounded_scale(n * k, d, sd);
        lemma_rounded_scale(sn * k, sd, d);
        assert((n * k) * sd == (sn * k) * d && d * sd == sd * d) by (nonlinear_arith)
            requires
                sn * d == n * sd,
        ;
    }
}

/// Scaling by a power of two leaves the divergence as it is: the means by `2^j` and
/// the variances by `2^2j`, with the same difference of logarithms, as long as
/// nothing overflows and the square of a gap does not underflow, which it does
/// below `2^-511`. Taken the other way round, this is scaling down.
pub proof fn law_divergence_scales(
    p: (Binary64, Binary64),
    q: (Binary64, Binary64),
    ln_p: Binary64,
    ln_q: Binary64,
    scaled_p: (Binary64, Binary64),
    scaled_q: (Binary64, Binary64),
    ln_scaled_p: Binary64,
    ln_scaled_q: Binary64,
    j: nat,
)
    requires
        p.0.is_finite() && p.1.is_finite() && q.0.is_finite() && q.1.is_finite(),
        scaled_p.0.is_finite() && scaled_p.1.is_finite() && scaled_q.0.is_finite() && scaled_q.1.is_finite(),
        greater(p.1, signed(false, 0)),
        greater(q.1, signed(false, 0)),
        scaled_p.0.value() == p.0.value() * pow2(j),
        scaled_q.0.value() == q.0.value() * pow2(j),
        scaled_p.1.value() == p.1.value() * pow2(2 * j),
        scaled_q.1.value() == q.1.value() * pow2(2 * j),
        p.0.value() == q.0.value() || distance(p.0.value() - q.0.value()) >= pow2(563),
        sum(scaled_p.1, squared(difference(scaled_p.0, scaled_q.0))).is_finite(),
        product(two(), scaled_q.1).is_finite(),
        difference(ln_scaled_q, ln_scaled_p) == difference(ln_q, ln_p),
    ensures
        divergence(scaled_p.0, scaled_p.1, scaled_q.0, scaled_q.1, ln_scaled_p, ln_scaled_q) == divergence(
            p.0,
            p.1,
            q.0,
            q.1,
            ln_p,
            ln_q,
        ),
{
    let (w, w2) = (pow2(j), pow2(2 * j));
    lemma_pow2_pos(j);
    lemma_pow2_pos(2 * j);
    lemma_scaled_sign(p.1, scaled_p.1, w2);
    lemma_scaled_sign(q.1, scaled_q.1, w2);
    let (sq, scaled_sq) = (squared(difference(p.0, q.0)), squared(difference(scaled_p.0, scaled_q.0)));
    assert(scaled_sq.is_finite()) by {
        reveal(sum);
    }
    lemma_squared_gap_scales(p.0, q.0, scaled_p.0, scaled_q.0, j);
    // The sum of the variance and the squared gap.
    let (top, scaled_top) = (sum(p.1, sq), sum(scaled_p.1, scaled_sq));
    let n = units(p.1.magnitude()) + units(sq.magnitude());
    assert(unsigned(top) && top.is_finite() && unsigned(scaled_top) && units(scaled_top.magnitude()) == units(
        top.magnitude(),
    ) * w2) by {
        reveal(sum);
        assert(n * w2 == units(p.1.magnitude()) * w2 + units(sq.magnitude()) * w2) by (nonlinear_arith)
            requires
                n == units(p.1.magnitude()) + units(sq.magnitude()),
        ;
        lemma_rounded_max(n * w2, 1);
        lemma_whole_scaled_up(n, 2 * j);
    }
    // Twice the other variance.
    let (bottom, scaled_bottom) = (product(two(), q.1), product(two(), scaled_q.1));
    let t = lemma_twice(q.1);
    let scaled_t = lemma_twice(scaled_q.1);
    let u = 2 * units(q.1.magnitude());
    assert(2 * units(scaled_q.1.magnitude()) == u * w2) by (nonlinear_arith)
        requires
            units(scaled_q.1.magnitude()) == units(q.1.magnitude()) * w2,
            u == 2 * units(q.1.magnitude()),
    ;
    lemma_whole_scaled_up(u, 2 * j);
    let (a, b) = (top.value(), bottom.value());
    assert((a * w2) * b == a * (b * w2)) by (nonlinear_arith);
    law_divergence_depends_on_the_ratio(p, q, ln_p, ln_q, scaled_p, scaled_q, ln_scaled_p, ln_scaled_q);
}

/// Scaling by a power of two leaves the divergence as it is on all numbers of
/// ordinary size: where the gap between the means is zero or `2^-511` at least, and
/// scaled up it is `2^511` at most and the variances are `2^1022` at most.
pub proof fn law_divergence_scales_in_range(
    p: (Binary64, Binary64),
    q: (Binary64, Binary64),
    ln_p: Binary64,
    ln_q: Binary64,
    scaled_p: (Binary64, Binary64),
    scaled_q: (Binary64, Binary64),
    ln_scaled_p: Binary64,
    ln_scaled_q: Binary64,
    j: nat,
)
    requires
        p.0.is_finite() && p.1.is_finite() && q.0.is_finite() && q.1.is_finite(),
        scaled_p.0.is_finite() && scaled_p.1.is_finite() && scaled_q.0.is_finite() && scaled_q.1.is_finite(),
        greater(p.1, signed(false, 0)),
        greater(q.1, signed(false, 0)),
        scaled_p.0.value() == p.0.value() * pow2(j),
        scaled_q.0.value() == q.0.value() * pow2(j),
        scaled_p.1.value() == p.1.value() * pow2(2 * j),
        scaled_q.1.value() == q.1.value() * pow2(2 * j),
        p.0.value() == q.0.value() || distance(p.0.value() - q.0.value()) >= pow2(563),
        distance(scaled_p.0.value() - scaled_q.0.value()) <= pow2(1074 + 511),
        scaled_p.1.value() <= pow2(1074 + 1022),
        scaled_q.1.value() <= pow2(1074 + 1022),
        difference(ln_scaled_q, ln_scaled_p) == difference(ln_q, ln_p),
    ensures
        divergence(scaled_p.0, scaled_p.1, scaled_q.0, scaled_q.1, ln_scaled_p, ln_scaled_q) == divergence(
            p.0,
            p.1,
            q.0,
            q.1,
            ln_p,
            ln_q,
        ),
{
    let k = pow2(1074);
    let (gap, var1, var2) = (difference(scaled_p.0, scaled_q.0), scaled_p.1, scaled_q.1);
    let v = distance(scaled_p.0.value() - scaled_q.0.value());
    lemma_pow2_pos(2 * j);
    lemma_pow2_pos(1074);
    lemma_scaled_sign(p.1, var1, pow2(2 * j));
    lemma_scaled_sign(q.1, var2, pow2(2 * j));
    assert(opposite(scaled_q.0).value() == -scaled_q.0.value());
    lemma_rounded_at_most(v, 1, 1585);
    assert(gap.magnitude() == rounded(v, 1)) by {
        reveal(sum);
    }
    let u = units(gap.magnitude());
    let sq = squared(gap);
    lemma_pow2_adds(1585, 1585);
    lemma_pow2_adds(2096, 1074);
    assert(u * u <= pow2(2096) * k) by (nonlinear_arith)
        requires
            u <= pow2(1585),
            pow2(1585) * pow2(1585) == pow2(2096) * k,
    ;
    lemma_rounded_at_most(u * u, k, 2096);
    assert(unsigned(sq) && sq.is_finite() && units(sq.magnitude()) <= pow2(2096)) by {
        reveal(product);
    }
    lemma_pow2_unfold(2097);
    lemma_rounded_at_most(units(var1.magnitude()) + units(sq.magnitude()), 1, 2097);
    assert(sum(var1, sq).is_finite()) by {
        reveal(sum);
    }
    let t = lemma_twice(var2);
    lemma_rounded_at_most(2 * units(var2.magnitude()), 1, 2097);
    law_divergence_scales(p, q, ln_p, ln_q, scaled_p, scaled_q, ln_scaled_p, ln_scaled_q, j);
}

/// A number above zero that is scaled up stays above zero.
proof fn lemma_scaled_sign(a: Binary64, scaled: Binary64, w: nat)
    requires
        a.is_finite(),
        scaled.is_finite(),
        greater(a, signed(false, 0)),
        scaled.value() == a.value() * w,
        w > 0,
    ensures
        !a.is_negative(),
        !a.is_zero(),
        !scaled.is_negative(),
        !scaled.is_zero(),
        units(scaled.magnitude()) == units(a.magnitude()) * w,
{
    reveal(greater);
    assert(a.value() * w > 0) by (nonlinear_arith)
        requires
            a.value() > 0,
            w > 0,
    ;
}

/// The square of a gap scales with it, where it does not overflow or underflow.
proof fn lemma_squared_gap_scales(a: Binary64, b: Binary64, scaled_a: Binary64, scaled_b: Binary64, j: nat)
    requires
        a.is_finite() && b.is_finite() && scaled_a.is_finite() && scaled_b.is_finite(),
        scaled_a.value() == a.value() * pow2(j),
        scaled_b.value() == b.value() * pow2(j),
        a.value() == b.value() || distance(a.value() - b.value()) >= pow2(563),
        squared(difference(scaled_a, scaled_b)).is_finite(),
    ensures
        unsigned(squared(difference(a, b))),
        squared(difference(a, b)).is_finite(),
        unsigned(squared(difference(scaled_a, scaled_b))),
        units(squared(difference(scaled_a, scaled_b)).magnitude()) == units(
            squared(difference(a, b)).magnitude(),
        ) * pow2(2 * j),
{
    let (w, k) = (pow2(j), pow2(1074));
    let (g, scaled_g) = (difference(a, b), difference(scaled_a, scaled_b));
    let v = distance(a.value() - b.value());
    lemma_pow2_pos(j);
    lemma_pow2_pos(1074);
    lemma_pow2_adds(j, j);
    assert(opposite(b).value() == -b.value());
    assert(opposite(scaled_b).value() == -scaled_b.value());
    assert(distance(scaled_a.value() - scaled_b.value()) == v * w) by {
        let (x, y) = (a.value(), b.value());
        assert(x * w - y * w == (x - y) * w) by (nonlinear_arith);
        assert((x - y) * w >= 0 <==> x - y >= 0 || w == 0) by (nonlinear_arith)
            requires
                w > 0,
        ;
        assert(-((x - y) * w) == (y - x) * w) by (nonlinear_arith);
    }
    lemma_rounded_max(v, 1);
    lemma_rounded_max(v * w, 1);
    assert(g.magnitude() == rounded(v, 1) && scaled_g.magnitude() == rounded(v * w, 1)) by {
        reveal(sum);
    }
    assert(scaled_g.is_finite()) by {
        reveal(product);
    }
    lemma_whole_scaled_up(v, j);
    let u = units(g.magnitude());
    let n = u * u;
    assert(n * (w * w) == (u * w) * (u * w)) by (nonlinear_arith)
        requires
            n == u * u,
    ;
    lemma_rounded_max(n, k);
    lemma_rounded_max(n * (w * w), k);
    reveal(product);
    if v == 0 {
        lemma_held(0, 0);
        lemma_rounded_zero(1);
        lemma_rounded_zero(k);
        assert(n == 0 && 0 * (w * w) == 0) by (nonlinear_arith)
            requires
                u == 0,
                n == u * u,
        ;
    } else {
        // The gap is 2^-511 at least, so that its square is no subnormal.
        assert(u >= pow2(563)) by {
            lemma_held(1, 563);
            assert(1 * pow2(563) == pow2(563));
            law_rounding_is_monotonic(pow2(563), v, 1);
            if rounded(pow2(563), 1) < rounded(v, 1) {
                lemma_units_increase(rounded(pow2(563), 1), rounded(v, 1));
            }
        }
        lemma_pow2_adds(563, 563);
        lemma_pow2_adds(52, 1074);
        lemma2_to64_rest();
        assert(n >= 0x0010_0000_0000_0000 * k) by (nonlinear_arith)
            requires
                n == u * u,
                u >= pow2(563),
                pow2(563) * pow2(563) == 0x0010_0000_0000_0000 * k,
        ;
        lemma_rounded_scaled_up(n, k, 2 * j);
    }
}

/// Twice a variance above zero is a number above zero, or infinite.
proof fn lemma_twice_a_variance(var: Binary64)
    requires
        greater(var, signed(false, 0)),
    ensures
        unsigned(var),
        unsigned(product(two(), var)),
        !product(two(), var).is_zero(),
{
    reveal(greater);
    lemma_constants();
    if var.is_finite() {
        let t = lemma_twice(var);
    } else {
        reveal(product);
    }
}

/// A quotient by a finite number above zero is a number.
proof fn lemma_share_is_a_number(a: Binary64, d: Binary64)
    requires
        unsigned(a),
        unsigned(d),
        d.is_finite(),
        !d.is_zero(),
    ensures
        unsigned(quotient(a, d)),
{
    reveal(quotient);
    lemma_rounded_max(units(a.magnitude()) * pow2(1074), units(d.magnitude()));
}

/// Multiplying a finite number by one half, or by minus one half, gives a finite
/// number.
proof fn lemma_halves(a: Binary64)
    requires
        a.is_finite(),
    ensures
        product(half(), a).is_finite(),
        product(minus_half(), a).is_finite(),
{
    reveal(product);
    lemma_constants();
    let (u, k) = (units(a.magnitude()), pow2(1074));
    let h = units(half().magnitude());
    lemma_pow2_pos(1074);
    assert(h * u <= u * k) by (nonlinear_arith)
        requires
            2 * h == k,
    ;
    law_rounding_is_monotonic(h * u, u * k, k);
    lemma_rounded_scale(u, 1, k);
    assert(1 * k == k);
    lemma_rounded_exact(a.magnitude());
}

/// A finite number and any other number have a sum and a difference, and the sum
/// less one half is still a number.
proof fn lemma_total_is_a_number(a: Binary64, b: Binary64)
    requires
        a.is_finite(),
        !b.is_nan(),
    ensures
        !sum(a, b).is_nan(),
        !difference(a, b).is_nan(),
        !difference(sum(a, b), half()).is_nan(),
{
    reveal(sum);
    lemma_constants();
    lemma_rounded_max(distance(a.value() + b.value()), 1);
    lemma_rounded_max(distance(a.value() + opposite(b).value()), 1);
    let s = sum(a, b);
    lemma_rounded_max(distance(s.value() + opposite(half()).value()), 1);
}

/// The further the mean of the belief is from that of the market, the greater the
/// divergence: it does not fall as the belief moves from `near` to `far`. Where
/// neither the logarithms nor twice the variance overflow, both are numbers.
pub proof fn law_divergence_grows_with_the_gap(
    near: Binary64,
    far: Binary64,
    var1: Binary64,
    mu2: Binary64,
    var2: Binary64,
    ln_var1: Binary64,
    ln_var2: Binary64,
)
    requires
        near.is_finite(),
        far.is_finite(),
        mu2.is_finite(),
        distance(near.value() - mu2.value()) <= distance(far.value() - mu2.value()),
        greater(var1, signed(false, 0)),
        greater(var2, signed(false, 0)),
    ensures
        !greater(
            divergence(near, var1, mu2, var2, ln_var1, ln_var2),
            divergence(far, var1, mu2, var2, ln_var1, ln_var2),
        ),
        difference(ln_var2, ln_var1).is_finite() && product(two(), var2).is_finite() ==> {
            &&& !divergence(near, var1, mu2, var2, ln_var1, ln_var2).is_nan()
            &&& !divergence(far, var1, mu2, var2, ln_var1, ln_var2).is_nan()
        },
{
    let twice = product(two(), var2);
    let spread = product(half(), difference(ln_var2, ln_var1));
    lemma_twice_a_variance(var1);
    lemma_twice_a_variance(var2);
    law_difference_grows(near, far, mu2);
    let (g, h) = (difference(near, mu2), difference(far, mu2));
    law_square_grows(g, h);
    let (s, t) = (squared(g), squared(h));
    law_sum_grows(var1, s);
    law_sum_grows(var1, t);
    let (x, y) = (sum(var1, s), sum(var1, t));
    assert(x.magnitude() <= y.magnitude()) by {
        reveal(sum);
        let (u, v, w) = (units(var1.magnitude()), units(s.magnitude()), units(t.magnitude()));
        if s.magnitude() < t.magnitude() {
            lemma_units_increase(s.magnitude(), t.magnitude());
        }
        law_rounding_is_monotonic(u + v, u + w, 1);
        lemma_rounded_max(u + v, 1);
    }
    law_quotient_is_monotonic(x, y, twice);
    let (a, b) = (quotient(x, twice), quotient(y, twice));
    law_sum_is_monotonic(a, b, spread);
    law_sum_is_monotonic(sum(spread, a), sum(spread, b), opposite(half()));
    if difference(ln_var2, ln_var1).is_finite() && twice.is_finite() {
        lemma_halves(difference(ln_var2, ln_var1));
        lemma_share_is_a_number(x, twice);
        lemma_share_is_a_number(y, twice);
        lemma_total_is_a_number(spread, a);
        lemma_total_is_a_number(spread, b);
    }
}

/// The further an outcome is from the mean, the lower its density: the log-density
/// does not rise from `near` to `far`, so that it is greatest at the mean. Where
/// neither the logarithm nor twice the variance overflow, both are numbers.
pub proof fn law_log_density_falls_off(
    near: Binary64,
    far: Binary64,
    mu: Binary64,
    var: Binary64,
    ln_normalizer: Binary64,
)
    requires
        near.is_finite(),
        far.is_finite(),
        mu.is_finite(),
        distance(near.value() - mu.value()) <= distance(far.value() - mu.value()),
        greater(var, signed(false, 0)),
    ensures
        !greater(log_density(far, mu, var, ln_normalizer), log_density(near, mu, var, ln_normalizer)),
        ln_normalizer.is_finite() && product(two(), var).is_finite() ==> {
            &&& !log_density(near, mu, var, ln_normalizer).is_nan()
            &&& !log_density(far, mu, var, ln_normalizer).is_nan()
        },
{
    let twice = product(two(), var);
    let p = product(minus_half(), ln_normalizer);
    lemma_twice_a_variance(var);
    law_difference_grows(near, far, mu);
    let (g, h) = (difference(near, mu), difference(far, mu));
    law_square_grows(g, h);
    let (s, t) = (squared(g), squared(h));
    law_quotient_is_monotonic(s, t, twice);
    let (a, b) = (quotient(s, twice), quotient(t, twice));
    assert(!greater(opposite(b), opposite(a))) by {
        reveal(greater);
    }
    law_sum_is_monotonic(opposite(b), opposite(a), p);
    if ln_normalizer.is_finite() && twice.is_finite() {
        lemma_halves(ln_normalizer);
        lemma_share_is_a_number(s, twice);
        lemma_share_is_a_number(t, twice);
        lemma_total_is_a_number(p, a);
        lemma_total_is_a_number(p, b);
    }
}

/// Whether the logarithms handed in keep above the tangent of the logarithm:
/// `0.5 * (ln var2 - ln var1)` is not below `0.5 - var1 / (2 * var2)`, both as they
/// are computed.
pub open spec fn above_the_tangent(var1: Binary64, var2: Binary64, ln_var1: Binary64, ln_var2: Binary64) -> bool {
    !greater(
        difference(half(), quotient(var1, product(two(), var2))),
        product(half(), difference(ln_var2, ln_var1)),
    )
}

/// The divergence is never below zero, but for rounding: where the logarithms keep
/// above the tangent, it is not below what is lost when `q = var1 / (2 * var2)` is
/// taken from one half and added again. Where one variance is not more than twice
/// the other, so that `q` is between one quarter and one, nothing is lost.
pub proof fn law_divergence_is_not_negative(
    mu1: Binary64,
    var1: Binary64,
    mu2: Binary64,
    var2: Binary64,
    ln_var1: Binary64,
    ln_var2: Binary64,
)
    requires
        mu1.is_finite(),
        mu2.is_finite(),
        greater(var1, signed(false, 0)),
        greater(var2, signed(false, 0)),
        product(two(), var2).is_finite(),
        quotient(var1, product(two(), var2)).is_finite(),
        difference(ln_var2, ln_var1).is_finite(),
        above_the_tangent(var1, var2, ln_var1, ln_var2),
    ensures
        ({
            let kl = divergence(mu1, var1, mu2, var2, ln_var1, ln_var2);
            let q = quotient(var1, product(two(), var2));
            &&& !kl.is_nan()
            &&& !greater(difference(sum(difference(half(), q), q), half()), kl)
            &&& 0x3fd0_0000_0000_0000 <= q.bits <= 0x3ff0_0000_0000_0000 ==> !greater(signed(false, 0), kl)
        }),
{
    let twice = product(two(), var2);
    let gap = difference(ln_var2, ln_var1);
    let spread = product(half(), gap);
    let q = quotient(var1, twice);
    let rest = difference(half(), q);
    lemma_twice_a_variance(var1);
    lemma_twice_a_variance(var2);
    lemma_halves(gap);
    law_difference_grows(mu1, mu1, mu2);
    let sq = squared(difference(mu1, mu2));
    law_square_grows(difference(mu1, mu2), difference(mu1, mu2));
    law_sum_grows(var1, sq);
    let top = sum(var1, sq);
    law_quotient_is_monotonic(var1, top, twice);
    lemma_share_is_a_number(var1, twice);
    lemma_share_is_a_number(top, twice);
    let share = quotient(top, twice);
    // One addend after the other is made greater.
    law_sum_is_monotonic(rest, spread, q);
    law_sum_is_monotonic(q, share, spread);
    lemma_total_is_a_number(spread, q);
    lemma_total_is_a_number(spread, share);
    assert(!greater(sum(rest, q), sum(spread, share))) by {
        reveal(greater);
    }
    law_sum_is_monotonic(sum(rest, q), sum(spread, share), opposite(half()));
    if 0x3fd0_0000_0000_0000 <= q.bits <= 0x3ff0_0000_0000_0000 {
        lemma_half_restored(q);
    }
}

/// Taking a number between one quarter and one from one half loses nothing.
proof fn lemma_half_restored(q: Binary64)
    requires
        0x3fd0_0000_0000_0000 <= q.bits <= 0x3ff0_0000_0000_0000,
    ensures
        difference(sum(difference(half(), q), q), half()) == signed(false, 0),
{
    let m = q.magnitude();
    let (s, e) = (significand(m), exponent(m));
    let p = pow2(e);
    let rest = difference(half(), q);
    lemma_units_parts(m);
    lemma_constants();
    lemma_pow2_pos(e);
    lemma2_to64_rest();
    assert(e == 1020 || e == 1021 || e == 1022);
    // In the last place of q, one half is a whole number too.
    let h: nat = if e == 1020 {
        0x0020_0000_0000_0000
    } else if e == 1021 {
        0x0010_0000_0000_0000
    } else {
        0x0008_0000_0000_0000
    };
    lemma_pow2_adds(53, 1020);
    lemma_pow2_adds(52, 1021);
    lemma_pow2_adds(51, 1022);
    lemma_pow2_unfold(1074);
    assert(units(half().magnitude()) == h * p);
    let v = half().value() - q.value();
    let d = distance(h - s);
    assert(distance(v) == d * p) by (nonlinear_arith)
        requires
            v == h * p - s * p,
            d == distance(h - s),
            distance(v) == if v < 0 { -v } else { v },
            d == if h < s { s - h } else { h - s },
            p > 0,
    ;
    assert(d < 0x0020_0000_0000_0000);
    lemma_held(d, e);
    assert(opposite(q).value() == -q.value());
    assert(rest.is_finite() && rest.value() == v) by {
        reveal(sum);
        lemma_rounded_max(distance(v), 1);
    }
    law_sum_exact(rest, q, half());
    law_difference_with_itself(half());
}

/// The divergence is what the belief expects to gain in log-density: the
/// log-density of the belief less that of the market, both at the mean of the
/// belief, plus `var1 / (2 * var2) - 0.5`. The two differ by nothing but what the
/// logarithms handed in disagree by and the rounding errors of the single
/// operations, each taken times `2 * var2`.
pub proof fn law_divergence_is_the_expected_gain(
    mu1: Binary64,
    var1: Binary64,
    mu2: Binary64,
    var2: Binary64,
    ln_var1: Binary64,
    ln_var2: Binary64,
    ln_normalizer1: Binary64,
    ln_normalizer2: Binary64,
)
    requires
        mu1.is_finite(),
        greater(var1, signed(false, 0)),
    ensures
        ({
            let twice = product(two(), var2);
            let sq = squared(difference(mu1, mu2));
            // The parts of the divergence.
            let kl = divergence(mu1, var1, mu2, var2, ln_var1, ln_var2);
            let spread = product(half(), difference(ln_var2, ln_var1));
            let top = sum(var1, sq);
            let share = quotient(top, twice);
            // The parts of the gain.
            let p1 = product(minus_half(), ln_normalizer1);
            let p2 = product(minus_half(), ln_normalizer2);
            let at_belief = log_density(mu1, mu1, var1, ln_normalizer1);
            let at_market = log_density(mu1, mu2, var2, ln_normalizer2);
            let gain = difference(at_belief, at_market);
            let c = quotient(sq, twice);
            let q = quotient(var1, twice);
            let expected = difference(sum(gain, q), half());
            let disagreement = spread.value() - (p1.value() - p2.value());
            let minus_a_half = opposite(half());
            let sums = sum_error(spread, share) + sum_error(sum(spread, share), minus_a_half) + sum_error(
                p2,
                opposite(c),
            ) - sum_error(at_belief, opposite(at_market)) - sum_error(gain, q) - sum_error(
                sum(gain, q),
                minus_a_half,
            );
            let quotients = quotient_error(top, twice) - quotient_error(sq, twice) - quotient_error(
                var1,
                twice,
            );
            (kl.value() - expected.value()) * twice.value() == (disagreement + sums) * twice.value()
                + sum_error(var1, sq) * pow2(1074) + quotients
        }),
{
    law_log_density_at_the_mean(mu1, var1, ln_normalizer1);
    let twice = product(two(), var2);
    let sq = squared(difference(mu1, mu2));
    let spread = product(half(), difference(ln_var2, ln_var1));
    let top = sum(var1, sq);
    let share = quotient(top, twice);
    let p1 = product(minus_half(), ln_normalizer1);
    let p2 = product(minus_half(), ln_normalizer2);
    let at_market = log_density(mu1, mu2, var2, ln_normalizer2);
    let gain = difference(p1, at_market);
    let c = quotient(sq, twice);
    let q = quotient(var1, twice);
    let (t, k) = (twice.value(), pow2(1074) as int);
    assert(opposite(c).value() == -c.value());
    assert(opposite(at_market).value() == -at_market.value());
    // All that is divided by twice the variance.
    let (x, y, z) = (share.value(), c.value(), q.value());
    let (a, b, d) = (top.value(), sq.value(), var1.value());
    assert((x - y - z) * t == (a - b - d) * k + ((x * t - a * k) - (y * t - b * k) - (z * t - d * k)))
        by (nonlinear_arith);
    // All that is not.
    let kl = divergence(mu1, var1, mu2, var2, ln_var1, ln_var2);
    let expected = difference(sum(gain, q), half());
    let minus_a_half = opposite(half());
    let sums = sum_error(spread, share) + sum_error(sum(spread, share), minus_a_half) + sum_error(p2, opposite(c))
        - sum_error(p1, opposite(at_market)) - sum_error(gain, q) - sum_error(sum(gain, q), minus_a_half);
    let w = spread.value() - (p1.value() - p2.value()) + sums;
    assert(kl.value() - expected.value() == w + (x - y - z));
    assert((w + (x - y - z)) * t == w * t + (x - y - z) * t) by (nonlinear_arith);
}

} // verus!
