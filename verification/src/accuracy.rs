//! How close the formulas come to the real ones.
//!
//! Each law compares what a function gives with the formula in real numbers, with
//! a bound on the difference.

use vstd::prelude::*;
use vstd::arithmetic::power2::*;
use crate::binary64::{
    difference, law_nan_propagates, opposite, product, quotient, signed, sum, Binary64,
};
use crate::gaussian::{
    divergence, half, kl_normal, lemma_constants, lemma_twice, log_density, log_pdf_normalizer,
    minus_half, normal_log_pdf, squared, two, two_pi,
};
use crate::reals::{
    abs, eps, from_on, law_product_is_accurate, law_quotient_is_accurate, law_sum_is_accurate,
    lemma_finite_product, lemma_finite_quotient, lemma_finite_sum, lemma_number,
    lemma_product_up_to, lemma_quotient_up_to, lemma_small, lemma_sum_up_to, lemma_up_to_more,
    number, tiny, up_to,
};
use crate::rounding::{lemma_rounded_zero, lemma_units_increase, units};

verus! {

/// Half of a difference, with both operations rounded.
proof fn lemma_half_difference(d: real, dl: real, sp: real, e: real, t: real)
    requires
        (0 as real) < e,
        e * (1024 as real) < (1 as real),
        (0 as real) < t,
        abs(dl - d) <= e * abs(d),
        abs(sp - dl / (2 as real)) <= e * abs(dl / (2 as real)) + t,
    ensures
        abs(sp - d / (2 as real)) <= (3 as real) * (e * abs(d / (2 as real))) + t,
{
    let a = abs(d);
    let ea = e * a;
    assert(ea >= (0 as real) && e * ea <= ea) by (nonlinear_arith)
        requires
            ea == e * a,
            a >= (0 as real),
            e > (0 as real),
            e <= (1 as real),
    ;
    assert(abs(dl) <= a + ea);
    assert(e * abs(dl / (2 as real)) <= ea) by (nonlinear_arith)
        requires
            abs(dl / (2 as real)) * (2 as real) <= a + ea,
            e > (0 as real),
            ea == e * a,
            e * ea <= ea,
    ;
    assert(e * abs(d / (2 as real)) * (2 as real) == ea) by (nonlinear_arith)
        requires
            abs(d / (2 as real)) * (2 as real) == a,
            ea == e * a,
    ;
}

/// A square, with the number squared and the square rounded.
proof fn lemma_square(g: real, gr: real, s: real, e: real, t: real)
    requires
        (0 as real) < e,
        e * (1024 as real) < (1 as real),
        (0 as real) < t,
        abs(gr - g) <= e * abs(g),
        abs(s - gr * gr) <= e * abs(gr * gr) + t,
    ensures
        abs(s - g * g) <= (5 as real) * (e * (g * g)) + t,
        g * g >= (0 as real),
{
    let a = abs(g);
    let q = g * g;
    let eq = e * q;
    let r = gr * gr;
    assert(q == a * a && q >= (0 as real)) by (nonlinear_arith)
        requires
            q == g * g,
            a == g || a == -g,
    ;
    assert(eq >= (0 as real)) by (nonlinear_arith)
        requires
            eq == e * q,
            q >= (0 as real),
            e > (0 as real),
    ;
    let ea = e * a;
    assert(ea * a == eq) by (nonlinear_arith)
        requires
            ea == e * a,
            q == a * a,
            eq == e * q,
    ;
    assert(ea * ea <= eq && ea >= (0 as real)) by (nonlinear_arith)
        requires
            ea == e * a,
            a >= (0 as real),
            e > (0 as real),
            e <= (1 as real),
            ea * a == eq,
    ;
    let d = gr - g;
    assert(r - q == d * d + (2 as real) * (d * g)) by (nonlinear_arith)
        requires
            r == gr * gr,
            q == g * g,
            d == gr - g,
    ;
    assert(d * d <= ea * ea && d * d >= (0 as real)) by (nonlinear_arith)
        requires
            -ea <= d <= ea,
    ;
    assert(-eq <= d * g <= eq) by (nonlinear_arith)
        requires
            -ea <= d <= ea,
            a == abs(g),
            g <= a,
            -a <= g,
            ea * a == eq,
            a >= (0 as real),
            ea >= (0 as real),
    ;
    assert(abs(r - q) <= (3 as real) * eq);
    assert(r >= (0 as real)) by (nonlinear_arith)
        requires
            r == gr * gr,
    ;
    assert(eq * (3 as real) <= q) by (nonlinear_arith)
        requires
            eq == e * q,
            e * (1024 as real) < (1 as real),
            q >= (0 as real),
    ;
    assert(e * r <= (2 as real) * eq) by (nonlinear_arith)
        requires
            r <= (2 as real) * q,
            eq == e * q,
            e > (0 as real),
    ;
}

/// A sum of something above zero and something close to `q`, over `w`, on either side
/// of zero.
proof fn lemma_share(v: real, q: real, s: real, top: real, w: real, sh: real, e: real, t: real)
    requires
        (0 as real) < e,
        e * (1024 as real) < (1 as real),
        (0 as real) < t,
        v >= (0 as real),
        q >= (0 as real),
        w != (0 as real),
        abs(s - q) <= (5 as real) * (e * q) + t,
        abs(top - (v + s)) <= e * abs(v + s),
        abs(sh - top / w) <= e * abs(top / w) + t,
    ensures
        abs(sh - (v + q) / w) <= (9 as real) * (e * abs((v + q) / w)) + (3 as real) * (t / abs(w)) + t,
        t / abs(w) > (0 as real),
{
    if w > (0 as real) {
        lemma_share_above(v, q, s, top, w, sh, e, t);
    } else {
        let z = -w;
        let n = v + q;
        assert(top / w == -(top / z) && n / w == -(n / z)) by (nonlinear_arith)
            requires
                z == -w,
                z > (0 as real),
        ;
        lemma_share_above(v, q, s, top, z, -sh, e, t);
    }
}

/// The same, where `w` is above zero.
proof fn lemma_share_above(v: real, q: real, s: real, top: real, w: real, sh: real, e: real, t: real)
    requires
        (0 as real) < e,
        e * (1024 as real) < (1 as real),
        (0 as real) < t,
        v >= (0 as real),
        q >= (0 as real),
        w > (0 as real),
        abs(s - q) <= (5 as real) * (e * q) + t,
        abs(top - (v + s)) <= e * abs(v + s),
        abs(sh - top / w) <= e * abs(top / w) + t,
    ensures
        abs(sh - (v + q) / w) <= (9 as real) * (e * ((v + q) / w)) + (3 as real) * (t / w) + t,
        (v + q) / w >= (0 as real),
        t / w > (0 as real),
{
    let n = v + q;
    let (en, eq, et) = (e * n, e * q, e * t);
    assert(eq <= en && eq >= (0 as real) && et <= t / (1024 as real) && et > (0 as real) && en * (1024 as real) <= n)
        by (nonlinear_arith)
        requires
            n == v + q,
            v >= (0 as real),
            q >= (0 as real),
            en == e * n,
            eq == e * q,
            et == e * t,
            t > (0 as real),
            e > (0 as real),
            e * (1024 as real) < (1 as real),
    ;
    assert(abs(v + s) <= (2 as real) * n + t);
    assert(e * abs(v + s) <= (2 as real) * en + et) by (nonlinear_arith)
        requires
            abs(v + s) <= (2 as real) * n + t,
            e > (0 as real),
            en == e * n,
            et == e * t,
    ;
    assert(abs(top - n) <= (7 as real) * en + (2 as real) * t);
    let (b, u) = (n / w, t / w);
    let eb = e * b;
    assert(en / w == eb && b >= (0 as real) && u > (0 as real)) by (nonlinear_arith)
        requires
            b == n / w,
            u == t / w,
            eb == e * b,
            en == e * n,
            w > (0 as real),
            n >= (0 as real),
            t > (0 as real),
    ;
    let x = top / w;
    assert(x - b <= (7 as real) * eb + (2 as real) * u && b - x <= (7 as real) * eb + (2 as real) * u) by (nonlinear_arith)
        requires
            x == top / w,
            b == n / w,
            u == t / w,
            en / w == eb,
            top - n <= (7 as real) * en + (2 as real) * t,
            n - top <= (7 as real) * en + (2 as real) * t,
            w > (0 as real),
    ;
    assert(eb >= (0 as real) && eb * (1024 as real) <= b) by (nonlinear_arith)
        requires
            eb == e * b,
            b >= (0 as real),
            e > (0 as real),
            e * (1024 as real) < (1 as real),
    ;
    assert(abs(x) <= (2 as real) * b + (2 as real) * u);
    assert(e * abs(x) <= (2 as real) * eb + u) by (nonlinear_arith)
        requires
            abs(x) <= (2 as real) * b + (2 as real) * u,
            eb == e * b,
            u > (0 as real),
            e > (0 as real),
            e * (1024 as real) < (1 as real),
    ;
}

/// Two parts that are close to what they should be, added up, and one half taken
/// off.
proof fn lemma_total(p: real, pr: real, b: real, c: real, u: real, y: real, r: real, e: real, t: real)
    requires
        (0 as real) < e,
        e * (1024 as real) < (1 as real),
        (0 as real) < t,
        (0 as real) < u,
        abs(pr - p) <= (3 as real) * (e * abs(p)) + t,
        abs(c - b) <= (9 as real) * (e * abs(b)) + (3 as real) * u + t,
        abs(y - (pr + c)) <= e * abs(pr + c),
        abs(r - (y - (1 as real) / (2 as real))) <= e * abs(y - (1 as real) / (2 as real)),
    ensures
        abs(r - (p + b - (1 as real) / (2 as real))) <= (16 as real) * (e * (abs(p) + abs(b) + (1 as real))) + (
        8 as real) * (t + u),
{
    let (a, bb) = (abs(p), abs(b));
    let (ea, eb, et, eu) = (e * a, e * bb, e * t, e * u);
    assert((0 as real) <= ea && ea * (1024 as real) <= a && (0 as real) <= eb && eb * (1024 as real) <= bb && (0 as real)
        < et && et * (1024 as real) <= t && (0 as real) < eu && eu * (1024 as real) <= u) by (nonlinear_arith)
        requires
            ea == e * a,
            eb == e * bb,
            et == e * t,
            eu == e * u,
            a >= (0 as real),
            bb >= (0 as real),
            t > (0 as real),
            u > (0 as real),
            e > (0 as real),
            e * (1024 as real) < (1 as real),
    ;
    let z = abs(pr + c);
    assert(z <= (2 as real) * a + (2 as real) * bb + (2 as real) * t + (3 as real) * u);
    assert(e * z <= (2 as real) * ea + (2 as real) * eb + (2 as real) * et + (3 as real) * eu) by (nonlinear_arith)
        requires
            z <= (2 as real) * a + (2 as real) * bb + (2 as real) * t + (3 as real) * u,
            ea == e * a,
            eb == e * bb,
            et == e * t,
            eu == e * u,
            e > (0 as real),
    ;
    let w = abs(y - (1 as real) / (2 as real));
    assert(w <= (2 as real) * a + (2 as real) * bb + (1 as real) + (3 as real) * t + (4 as real) * u);
    assert(e * w <= (2 as real) * ea + (2 as real) * eb + e + (3 as real) * et + (4 as real) * eu) by (nonlinear_arith)
        requires
            w <= (2 as real) * a + (2 as real) * bb + (1 as real) + (3 as real) * t + (4 as real) * u,
            ea == e * a,
            eb == e * bb,
            et == e * t,
            eu == e * u,
            e > (0 as real),
    ;
    assert(e * (a + bb + (1 as real)) == ea + eb + e) by (nonlinear_arith)
        requires
            ea == e * a,
            eb == e * bb,
    ;
}

/// Two parts that are close to what they should be, the second taken from the
/// first.
proof fn lemma_less(p: real, pr: real, b: real, c: real, u: real, r: real, e: real, t: real)
    requires
        (0 as real) < e,
        e * (1024 as real) < (1 as real),
        (0 as real) < t,
        (0 as real) < u,
        abs(pr - p) <= e * abs(p) + t,
        abs(c - b) <= (9 as real) * (e * abs(b)) + (3 as real) * u + t,
        abs(r - (pr - c)) <= e * abs(pr - c),
    ensures
        abs(r - (p - b)) <= (16 as real) * (e * (abs(p) + abs(b))) + (8 as real) * (t + u),
{
    let (a, bb) = (abs(p), abs(b));
    let (ea, eb, et, eu) = (e * a, e * bb, e * t, e * u);
    assert((0 as real) <= ea && ea * (1024 as real) <= a && (0 as real) <= eb && eb * (1024 as real) <= bb && (0 as real)
        < et && et * (1024 as real) <= t && (0 as real) < eu && eu * (1024 as real) <= u) by (nonlinear_arith)
        requires
            ea == e * a,
            eb == e * bb,
            et == e * t,
            eu == e * u,
            a >= (0 as real),
            bb >= (0 as real),
            t > (0 as real),
            u > (0 as real),
            e > (0 as real),
            e * (1024 as real) < (1 as real),
    ;
    let z = abs(pr - c);
    assert(z <= (2 as real) * a + (2 as real) * bb + (2 as real) * t + (3 as real) * u);
    assert(e * z <= (2 as real) * ea + (2 as real) * eb + (2 as real) * et + (3 as real) * eu) by (nonlinear_arith)
        requires
            z <= (2 as real) * a + (2 as real) * bb + (2 as real) * t + (3 as real) * u,
            ea == e * a,
            eb == e * bb,
            et == e * t,
            eu == e * u,
            e > (0 as real),
    ;
    assert(e * (a + bb) == ea + eb) by (nonlinear_arith)
        requires
            ea == e * a,
            eb == e * bb,
    ;
}

/// One half, minus one half and two as real numbers.
proof fn lemma_real_constants()
    ensures
        number(half()) == (1 as real) / (2 as real),
        number(minus_half()) == -((1 as real) / (2 as real)),
        number(two()) == (2 as real),
{
    lemma_constants();
    lemma_small();
    let k = pow2(1074) as real;
    let h = half().value() as real;
    assert((2 as real) * h == k);
    assert(h / k == (1 as real) / (2 as real) && (-h) / k == -((1 as real) / (2 as real)) && ((2 as real) * k) / k == (2 as real))
        by (nonlinear_arith)
        requires
            (2 as real) * h == k,
            k > (0 as real),
    ;
}

/// Twice a number, as a real number.
proof fn lemma_real_twice(var: Binary64)
    requires
        number(var) != (0 as real),
        product(two(), var).is_finite(),
    ensures
        number(product(two(), var)) == (2 as real) * number(var),
        !product(two(), var).is_zero(),
        var.is_finite(),
{
    lemma_number(var);
    lemma_finite_product(two(), var);
    lemma_constants();
    let size = signed(false, var.magnitude());
    lemma_units_increase_from_zero(var);
    let t = lemma_twice(size);
    lemma_small();
    assert(product(two(), var) == signed(var.is_negative(), t)) by {
        reveal(product);
    }
    let (x, k) = (var.value() as real, pow2(1074) as real);
    assert(product(two(), var).value() == 2 * var.value());
    assert(((2 as real) * x) / k == (2 as real) * (x / k)) by (nonlinear_arith)
        requires
            k > (0 as real),
    ;
}

/// A number that is not zero has a magnitude.
proof fn lemma_units_increase_from_zero(a: Binary64)
    requires
        a.value() != 0,
    ensures
        !a.is_zero(),
        units(a.magnitude()) > 0,
{
}

/// Whether `kl` is the divergence in real numbers, but for rounding: `0.5 * (ln var2 -
/// ln var1) + (var1 + (mu1 - mu2)^2) / (2 * var2) - 0.5`.
pub open spec fn near_divergence(
    kl: Binary64,
    mu1: Binary64,
    var1: Binary64,
    mu2: Binary64,
    var2: Binary64,
    ln_var1: Binary64,
    ln_var2: Binary64,
) -> bool {
    let gap = number(mu1) - number(mu2);
    let spread = (number(ln_var2) - number(ln_var1)) / (2 as real);
    let share = (number(var1) + gap * gap) / ((2 as real) * number(var2));
    abs(number(kl) - (spread + share - (1 as real) / (2 as real))) <= (16 as real) * (eps() * (abs(spread) + abs(share)
        + (1 as real))) + (8 as real) * (tiny() + tiny() / abs((2 as real) * number(var2)))
}

/// Whether the numbers that a divergence is taken of are of ordinary size.
pub open spec fn ordinary_pair(
    mu1: Binary64,
    var1: Binary64,
    mu2: Binary64,
    var2: Binary64,
    ln_var1: Binary64,
    ln_var2: Binary64,
) -> bool {
    &&& up_to(mu1, 400) && up_to(mu2, 400)
    &&& up_to(var1, 800) && up_to(var2, 1000) && from_on(var2, -200)
    &&& up_to(ln_var1, 1000) && up_to(ln_var2, 1000)
}

/// `kl_normal` gives the divergence in real numbers, but for rounding, for whatever
/// logarithms are handed in. It is finite on all numbers of ordinary size.
pub proof fn law_kl_normal_is_accurate(
    mu1: Binary64,
    var1: Binary64,
    mu2: Binary64,
    var2: Binary64,
    ln_var1: Binary64,
    ln_var2: Binary64,
    kl: Binary64,
)
    requires
        call_ensures(kl_normal, (mu1, var1, mu2, var2, ln_var1, ln_var2), kl),
        number(var1) > (0 as real),
        number(var2) > (0 as real),
    ensures
        kl.is_finite() && product(two(), var2).is_finite() ==> near_divergence(
            kl,
            mu1,
            var1,
            mu2,
            var2,
            ln_var1,
            ln_var2,
        ),
        ordinary_pair(mu1, var1, mu2, var2, ln_var1, ln_var2) ==> kl.is_finite() && product(two(), var2).is_finite(),
{
    lemma_divergence_is_accurate(mu1, var1, mu2, var2, ln_var1, ln_var2);
}

/// The divergence is the one in real numbers, but for rounding. It is no finite number
/// where a logarithm is none, or where the second variance is zero.
pub proof fn lemma_divergence_is_accurate(
    mu1: Binary64,
    var1: Binary64,
    mu2: Binary64,
    var2: Binary64,
    ln_var1: Binary64,
    ln_var2: Binary64,
)
    requires
        number(var1) >= (0 as real),
    ensures
        ({
            let kl = divergence(mu1, var1, mu2, var2, ln_var1, ln_var2);
            &&& ln_var1.is_nan() || ln_var2.is_nan() ==> kl.is_nan()
            &&& !ln_var1.is_finite() || !ln_var2.is_finite() || var2.is_zero() ==> !kl.is_finite()
            &&& kl.is_finite() && product(two(), var2).is_finite() ==> near_divergence(
                kl,
                mu1,
                var1,
                mu2,
                var2,
                ln_var1,
                ln_var2,
            )
            &&& ordinary_pair(mu1, var1, mu2, var2, ln_var1, ln_var2) ==> kl.is_finite() && product(
                two(),
                var2,
            ).is_finite()
        }),
{
    let kl = divergence(mu1, var1, mu2, var2, ln_var1, ln_var2);
    lemma_small();
    lemma_real_constants();
    lemma_number(half());
    lemma_number(mu2);
    lemma_number(ln_var1);
    let gap = difference(mu1, mu2);
    let sq = squared(gap);
    let top = sum(var1, sq);
    let twice = product(two(), var2);
    let share = quotient(top, twice);
    let rise = difference(ln_var2, ln_var1);
    let spread = product(half(), rise);
    let y = sum(spread, share);
    if ln_var1.is_nan() || ln_var2.is_nan() {
        law_nan_propagates(ln_var2, ln_var1);
        law_nan_propagates(half(), rise);
        law_nan_propagates(spread, share);
        law_nan_propagates(y, half());
    }
    if kl.is_finite() {
        lemma_finite_sum(y, opposite(half()));
        lemma_finite_sum(spread, share);
        lemma_finite_product(half(), rise);
        lemma_finite_sum(ln_var2, opposite(ln_var1));
        if var2.is_zero() {
            lemma_over_zero(top, var2);
        }
    }
    if kl.is_finite() && twice.is_finite() {
        lemma_number(var2);
        lemma_units_increase(0, var2.magnitude());
        lemma_finite_sum(y, opposite(half()));
        lemma_finite_sum(spread, share);
        lemma_finite_quotient(top, twice);
        lemma_finite_sum(var1, sq);
        lemma_finite_product(gap, gap);
        lemma_finite_sum(mu1, opposite(mu2));
        lemma_finite_product(half(), rise);
        lemma_finite_sum(ln_var2, opposite(ln_var1));
        lemma_real_twice(var2);
        law_sum_is_accurate(ln_var2, opposite(ln_var1));
        lemma_number(ln_var1);
        law_product_is_accurate(half(), rise);
        law_sum_is_accurate(mu1, opposite(mu2));
        law_product_is_accurate(gap, gap);
        law_sum_is_accurate(var1, sq);
        law_quotient_is_accurate(top, twice);
        law_sum_is_accurate(spread, share);
        law_sum_is_accurate(y, opposite(half()));
        let d = number(ln_var2) - number(ln_var1);
        let dl = number(rise);
        assert(((1 as real) / (2 as real)) * dl == dl / (2 as real)) by (nonlinear_arith);
        lemma_half_difference(d, dl, number(spread), eps(), tiny());
        let g = number(mu1) - number(mu2);
        lemma_square(g, number(gap), number(sq), eps(), tiny());
        let w = (2 as real) * number(var2);
        lemma_share(number(var1), g * g, number(sq), number(top), w, number(share), eps(), tiny());
        lemma_total(
            d / (2 as real),
            number(spread),
            (number(var1) + g * g) / w,
            number(share),
            tiny() / abs(w),
            number(y),
            number(kl),
            eps(),
            tiny(),
        );
    }
    if ordinary_pair(mu1, var1, mu2, var2, ln_var1, ln_var2) {
        lemma_divergence_bounded(mu1, var1, mu2, var2, ln_var1, ln_var2);
    }
}

/// Nothing finite comes of dividing by twice a zero.
proof fn lemma_over_zero(a: Binary64, var: Binary64)
    requires
        var.is_zero(),
    ensures
        !quotient(a, product(two(), var)).is_finite(),
{
    reveal(product);
    reveal(quotient);
    lemma_pow2_pos(1074);
    assert(units(two().magnitude()) * 0 == 0) by (nonlinear_arith);
    lemma_rounded_zero(pow2(1074));
}

/// The constants are bounded.
proof fn lemma_constants_up_to()
    ensures
        up_to(half(), -1),
        up_to(minus_half(), -1),
        up_to(two(), 1),
{
    lemma_constants();
    lemma_pow2_unfold(1074);
    lemma_pow2_unfold(1075);
}

/// Twice a variance that is not small is not small.
proof fn lemma_twice_from_on(var: Binary64, e: int)
    requires
        from_on(var, e),
        -1074 <= e,
        up_to(var, 1000),
    ensures
        from_on(product(two(), var), e),
        product(two(), var).is_finite(),
{
    lemma_constants_up_to();
    lemma_product_up_to(two(), var, 1, 1000);
    lemma_pow2_pos((1074 + e) as nat);
    let t = lemma_twice(var);
}

/// On numbers of ordinary size, the divergence is finite.
proof fn lemma_divergence_bounded(
    mu1: Binary64,
    var1: Binary64,
    mu2: Binary64,
    var2: Binary64,
    ln_var1: Binary64,
    ln_var2: Binary64,
)
    requires
        ordinary_pair(mu1, var1, mu2, var2, ln_var1, ln_var2),
    ensures
        product(two(), var2).is_finite(),
        divergence(mu1, var1, mu2, var2, ln_var1, ln_var2).is_finite(),
{
    lemma_constants_up_to();
    let gap = difference(mu1, mu2);
    let sq = squared(gap);
    let top = sum(var1, sq);
    let twice = product(two(), var2);
    let share = quotient(top, twice);
    let rise = difference(ln_var2, ln_var1);
    let spread = product(half(), rise);
    lemma_sum_up_to(mu1, mu2, 400);
    lemma_product_up_to(gap, gap, 401, 401);
    lemma_up_to_more(var1, 800, 802);
    lemma_sum_up_to(var1, sq, 802);
    lemma_twice_from_on(var2, -200);
    lemma_quotient_up_to(top, twice, 803, -200);
    lemma_sum_up_to(ln_var2, ln_var1, 1000);
    lemma_product_up_to(half(), rise, -1, 1001);
    lemma_up_to_more(spread, 1000, 1003);
    lemma_sum_up_to(spread, share, 1003);
    lemma_up_to_more(half(), -1, 1004);
    lemma_sum_up_to(sum(spread, share), half(), 1004);
}

/// `log_pdf_normalizer` gives `2 * pi * var`, but for rounding.
pub proof fn law_log_pdf_normalizer_is_accurate(var: Binary64, r: Binary64)
    requires
        call_ensures(log_pdf_normalizer, (var,), r),
    ensures
        number(two_pi()) * (1000000000000000 as real) > (6283185307179586 as real),
        number(two_pi()) * (1000000000000000 as real) < (6283185307179587 as real),
        r.is_finite() ==> abs(number(r) - number(two_pi()) * number(var)) <= eps() * abs(
            number(two_pi()) * number(var),
        ) + tiny(),
        up_to(var, 1000) ==> r.is_finite(),
{
    lemma_small();
    lemma_two_pi();
    if r.is_finite() {
        lemma_finite_product(two_pi(), var);
        law_product_is_accurate(two_pi(), var);
    }
    if up_to(var, 1000) {
        lemma_product_up_to(two_pi(), var, 3, 1000);
    }
}

/// The constant for twice pi, between two decimal numbers.
proof fn lemma_two_pi()
    ensures
        number(two_pi()) * (1000000000000000 as real) > (6283185307179586 as real),
        number(two_pi()) * (1000000000000000 as real) < (6283185307179587 as real),
        up_to(two_pi(), 3),
{
    lemma_small();
    let s: nat = 0x0019_21fb_5444_2d18;
    let p = pow2(1024);
    lemma2_to64_rest();
    assert(two_pi().value() == s * p);
    lemma_pow2_adds(50, 1024);
    lemma_pow2_pos(1024);
    let k = pow2(1074);
    assert(s * p * 1000000000000000 > 6283185307179586 * k && s * p * 1000000000000000 < 6283185307179587 * k)
        by (nonlinear_arith)
        requires
            s == 0x0019_21fb_5444_2d18,
            k == 0x0004_0000_0000_0000 * p,
            p > 0,
    ;
    let (x, y) = ((s * p) as real, k as real);
    assert(x * (1000000000000000 as real) > (6283185307179586 as real) * y);
    assert(x * (1000000000000000 as real) < (6283185307179587 as real) * y);
    assert((x / y) * (1000000000000000 as real) > (6283185307179586 as real) && (x / y) * (1000000000000000 as real)
        < (6283185307179587 as real)) by (nonlinear_arith)
        requires
            x * (1000000000000000 as real) > (6283185307179586 as real) * y,
            x * (1000000000000000 as real) < (6283185307179587 as real) * y,
            y > (0 as real),
    ;
    lemma_pow2_adds(53, 1024);
    assert(s * p <= pow2(53) * p) by (nonlinear_arith)
        requires
            s <= pow2(53),
    ;
}

/// Whether `r` is the log-density in real numbers, but for rounding: `-0.5 *
/// ln_normalizer - (x - mu)^2 / (2 * var)`.
pub open spec fn near_log_density(r: Binary64, x: Binary64, mu: Binary64, var: Binary64, ln_normalizer: Binary64) -> bool {
    let gap = number(x) - number(mu);
    let share = gap * gap / ((2 as real) * number(var));
    let level = number(ln_normalizer) / (2 as real);
    abs(number(r) - (-level - share)) <= (16 as real) * (eps() * (abs(level) + abs(share))) + (8 as real) * (tiny()
        + tiny() / abs((2 as real) * number(var)))
}

/// Whether the numbers that a log-density is taken of are of ordinary size.
pub open spec fn ordinary_point(x: Binary64, mu: Binary64, var: Binary64, ln_normalizer: Binary64) -> bool {
    &&& up_to(x, 400) && up_to(mu, 400)
    &&& up_to(var, 1000) && from_on(var, -200)
    &&& up_to(ln_normalizer, 1000)
}

/// `normal_log_pdf` gives the log-density in real numbers, but for rounding, for
/// whatever logarithm of the normalizer is handed in. It is finite on all numbers of
/// ordinary size.
pub proof fn law_normal_log_pdf_is_accurate(
    x: Binary64,
    mu: Binary64,
    var: Binary64,
    ln_normalizer: Binary64,
    r: Binary64,
)
    requires
        call_ensures(normal_log_pdf, (x, mu, var, ln_normalizer), r),
    ensures
        ln_normalizer.is_nan() || x.is_nan() || mu.is_nan() || var.is_nan() ==> r.is_nan(),
        !ln_normalizer.is_finite() || !x.is_finite() || !mu.is_finite() || var.is_zero() ==> !r.is_finite()
            || var.is_infinite(),
        r.is_finite() && product(two(), var).is_finite() ==> near_log_density(r, x, mu, var, ln_normalizer),
        ordinary_point(x, mu, var, ln_normalizer) ==> r.is_finite() && product(two(), var).is_finite(),
{
    lemma_log_density_is_accurate(x, mu, var, ln_normalizer);
}

/// The log-density is the one in real numbers, but for rounding.
pub proof fn lemma_log_density_is_accurate(x: Binary64, mu: Binary64, var: Binary64, ln_normalizer: Binary64)
    ensures
        ({
            let r = log_density(x, mu, var, ln_normalizer);
            &&& ln_normalizer.is_nan() || x.is_nan() || mu.is_nan() || var.is_nan() ==> r.is_nan()
            &&& !ln_normalizer.is_finite() || !x.is_finite() || !mu.is_finite() || var.is_zero() ==> !r.is_finite()
                || var.is_infinite()
            &&& r.is_finite() && product(two(), var).is_finite() ==> near_log_density(r, x, mu, var, ln_normalizer)
            &&& ordinary_point(x, mu, var, ln_normalizer) ==> up_to(r, 1003) && product(two(), var).is_finite()
        }),
{
    let r = log_density(x, mu, var, ln_normalizer);
    lemma_small();
    lemma_real_constants();
    lemma_number(mu);
    let gap = difference(x, mu);
    let sq = squared(gap);
    let twice = product(two(), var);
    let share = quotient(sq, twice);
    let level = product(minus_half(), ln_normalizer);
    lemma_number(share);
    if ln_normalizer.is_nan() {
        law_nan_propagates(minus_half(), ln_normalizer);
        law_nan_propagates(level, share);
    }
    if x.is_nan() || mu.is_nan() {
        law_nan_propagates(x, mu);
        law_nan_propagates(gap, gap);
        law_nan_propagates(sq, twice);
        law_nan_propagates(level, share);
    }
    if var.is_nan() {
        law_nan_propagates(two(), var);
        law_nan_propagates(sq, twice);
        law_nan_propagates(level, share);
    }
    if r.is_finite() {
        lemma_finite_sum(level, opposite(share));
        assert(share.is_finite());
        lemma_finite_product(minus_half(), ln_normalizer);
        lemma_finite_quotient(sq, twice);
        lemma_finite_product(gap, gap);
        lemma_finite_sum(x, opposite(mu));
        if var.is_zero() {
            lemma_over_zero(sq, var);
        }
    }
    if r.is_finite() && twice.is_finite() {
        lemma_number(var);
        lemma_units_increase(0, var.magnitude());
        lemma_finite_sum(level, opposite(share));
        assert(share.is_finite());
        lemma_finite_quotient(sq, twice);
        lemma_finite_product(gap, gap);
        lemma_finite_sum(x, opposite(mu));
        lemma_finite_product(minus_half(), ln_normalizer);
        lemma_real_twice(var);
        law_product_is_accurate(minus_half(), ln_normalizer);
        law_sum_is_accurate(x, opposite(mu));
        law_product_is_accurate(gap, gap);
        law_quotient_is_accurate(sq, twice);
        law_sum_is_accurate(level, opposite(share));
        let p = -(number(ln_normalizer) / (2 as real));
        assert(-((1 as real) / (2 as real)) * number(ln_normalizer) == p) by (nonlinear_arith)
            requires
                p == -(number(ln_normalizer) / (2 as real)),
        ;
        let g = number(x) - number(mu);
        lemma_square(g, number(gap), number(sq), eps(), tiny());
        let w = (2 as real) * number(var);
        assert(eps() * abs(number(sq)) >= (0 as real)) by (nonlinear_arith)
            requires
                eps() > (0 as real),
                abs(number(sq)) >= (0 as real),
        ;
        lemma_share((0 as real), g * g, number(sq), number(sq), w, number(share), eps(), tiny());
        lemma_less(p, number(level), g * g / w, number(share), tiny() / abs(w), number(r), eps(), tiny());
    }
    if ordinary_point(x, mu, var, ln_normalizer) {
        lemma_constants_up_to();
        lemma_sum_up_to(x, mu, 400);
        lemma_product_up_to(gap, gap, 401, 401);
        lemma_twice_from_on(var, -200);
        lemma_quotient_up_to(sq, twice, 802, -200);
        lemma_product_up_to(minus_half(), ln_normalizer, -1, 1000);
        lemma_up_to_more(level, 999, 1002);
        lemma_sum_up_to(level, share, 1002);
    }
}

} // verus!
