//! What goes into fixed point and what comes out of it.

use vstd::prelude::*;
use vstd::arithmetic::power2::*;
use crate::binary64::{
    distance, law_sum_grows, lemma_rounded_max, negligible, opposite, product, quotient, signed,
    sum, unsigned, whole, Binary64,
};
use crate::market::{normal, NormalDistribution, NormalError};
use crate::reals::{
    abs, eps, law_product_is_accurate, law_quotient_is_accurate, law_sum_is_accurate,
    lemma_negligible, lemma_number, lemma_product_up_to, lemma_quotient_up_to, lemma_real_product,
    lemma_small, lemma_sum_up_to, lemma_up_to_more, number, tiny, up_to,
};
use crate::root::{floor_root, lemma_floor_root_exists};
use crate::rounding::{law_rounding_error, lemma_rounded_at_most, units};
use crate::sq128::{
    approximation, fixed, law_read_back, lemma_fixed_magnitude, lemma_scales,
    lemma_truncated_magnitude, limb_base, truncated, two_to_the_128, two_to_the_64, FixedPointError,
    Sq128,
};
use crate::synthetic::make_normal;

verus! {

/// Whether `q` is what is left of `x` without its bits below `2^-128`: no further
/// from zero than `x`, by less than `2^-128`, and on the same side.
pub open spec fn cuts(q: Sq128, x: Binary64) -> bool {
    &&& q.magnitude() * pow2(946) <= distance(x.value()) < (q.magnitude() + 1) * pow2(946)
    &&& q.neg <==> x.value() < 0 && q.magnitude() > 0
}

/// Whether fixed point reaches to `x`: it is below `2^128` in magnitude.
pub open spec fn in_reach(x: Binary64) -> bool {
    x.is_finite() && distance(x.value()) < pow2(1202)
}

/// What the cut-off part of a number amounts to.
proof fn lemma_cuts(x: Binary64)
    requires
        in_reach(x),
    ensures
        cuts(truncated(x), x),
{
    let (u, k, p, w) = (units(x.magnitude()), pow2(1074), pow2(128), pow2(946));
    lemma_truncated_magnitude(x);
    let q = truncated(x).magnitude();
    lemma_pow2_pos(128);
    lemma_pow2_pos(946);
    lemma_pow2_pos(1074);
    lemma_pow2_adds(946, 128);
    vstd::arithmetic::div_mod::lemma_fundamental_div_mod((u * p) as int, k as int);
    let r = (u * p) % k;
    assert(q * w <= u < (q + 1) * w) by (nonlinear_arith)
        requires
            u * p == k * q + r,
            0 <= r < k,
            k == w * p,
            p > 0,
    ;
    if x.value() < 0 {
        assert(x.is_negative());
    } else if x.is_negative() {
        assert(u == 0);
        assert(q == 0) by (nonlinear_arith)
            requires
                q * w <= 0,
                w > 0,
        ;
    }
}

/// A number becomes fixed point exactly if it is finite and below `2^128` in
/// magnitude, and then only its bits below `2^-128` are lost.
pub proof fn law_from_binary64_cuts(x: Binary64, r: Result<Sq128, FixedPointError>)
    requires
        call_ensures(Sq128::from_binary64, (x,), r),
    ensures
        r is Ok <==> in_reach(x),
        r matches Ok(q) ==> cuts(q, x),
        r matches Err(e) ==> (e is NotFinite <==> !x.is_finite()),
{
    assert(distance(x.value()) == units(x.magnitude()));
    if in_reach(x) {
        lemma_cuts(x);
    }
}

/// Whether sigma is the root of the variance, but for its bits below `2^-128`.
pub open spec fn has_root(d: NormalDistribution) -> bool {
    let (s, v) = (d.sigma.magnitude(), d.variance.magnitude());
    !d.sigma.neg && s * s <= v * pow2(128) < (s + 1) * (s + 1)
}

/// `from_variance` fails exactly for a variance below zero. It keeps the mean and
/// the variance, but for the sign of a zero, and sigma is the root of the variance,
/// where that is `2^128 - 1` at most.
pub proof fn law_from_variance_keeps_its_moments(
    mean: Sq128,
    variance: Sq128,
    r: Result<NormalDistribution, NormalError>,
)
    requires
        call_ensures(NormalDistribution::from_variance, (mean, variance), r),
    ensures
        r is Err <==> variance.neg && variance.magnitude() > 0,
        r matches Err(e) ==> e is NegativeVariance,
        r matches Ok(d) ==> {
            &&& d.mean.magnitude() == mean.magnitude() && (d.mean.neg <==> mean.neg && mean.magnitude() > 0)
            &&& d.variance.magnitude() == variance.magnitude() && !d.variance.neg
            &&& variance.magnitude() <= (pow2(128) - 1) * pow2(128) ==> has_root(d)
        },
{
    lemma_2_to_128();
    if let Ok(d) = r {
        let p = pow2(128);
        let s = d.sigma.magnitude();
        assert(s * 1 == s && (s + 1) * 1 == s + 1);
        assert((p - 1) * p == 0xffff_ffff_ffff_ffff_ffff_ffff_ffff_ffff_0000_0000_0000_0000_0000_0000_0000_0000nat)
            by (nonlinear_arith)
            requires
                p == 0x1_0000_0000_0000_0000_0000_0000_0000_0000nat,
        ;
    }
}

/// `2^128`.
proof fn lemma_2_to_128()
    ensures
        pow2(128) == 0x1_0000_0000_0000_0000_0000_0000_0000_0000nat,
{
    lemma2_to64();
    lemma_pow2_adds(64, 64);
    assert(pow2(64) * pow2(64) == 0x1_0000_0000_0000_0000_0000_0000_0000_0000nat) by (nonlinear_arith)
        requires
            pow2(64) == 0x1_0000_0000_0000_0000nat,
    ;
}

/// The root of a variance in fixed point.
proof fn lemma_root_of(m: nat)
    requires
        m <= 0xffff_ffff_ffff_f800_0000_0000_0000_0000_0000_0000_0000_0000_0000_0000_0000_0000nat,
    ensures
        ({
            let n = m * 0x1_0000_0000_0000_0000_0000_0000_0000_0000nat;
            let s = fixed(false, floor_root(n));
            !s.neg && s.magnitude() * s.magnitude() <= n < (s.magnitude() + 1) * (s.magnitude() + 1)
        }),
{
    let n = m * 0x1_0000_0000_0000_0000_0000_0000_0000_0000nat;
    let q = floor_root(n);
    lemma_floor_root_exists(n);
    assert(q * 1 == q && (q + 1) * 1 == q + 1);
    let b = limb_base();
    let bb = b * b * b * b;
    let c: nat = 0x1_0000_0000_0000_0000_0000_0000_0000_0000nat;
    assert(bb == 0x1_0000_0000_0000_0000_0000_0000_0000_0000_0000_0000_0000_0000_0000_0000_0000_0000nat)
        by (nonlinear_arith)
        requires
            bb == b * b * b * b,
            b == 0x1_0000_0000_0000_0000nat,
    ;
    assert(n < bb * bb) by (nonlinear_arith)
        requires
            n == m * c,
            m < bb,
            0 < c < bb,
    ;
    assert(q < bb) by (nonlinear_arith)
        requires
            q * q <= n,
            n < bb * bb,
    ;
    lemma_fixed_magnitude(false, q);
}

/// A normal distribution is built exactly if fixed point reaches to both moments and
/// the variance is not below zero. It has these moments, but for their bits below
/// `2^-128`, and its sigma is the root of the variance, but for the bits below
/// `2^-128`. Otherwise the error says which of the two is to blame, the mean first.
pub proof fn lemma_normal_has_its_moments(mean: Binary64, variance: Binary64)
    ensures
        ({
            let r = normal(mean, variance);
            let fits = in_reach(mean) && in_reach(variance);
            &&& r is Ok <==> fits && variance.value() > -pow2(946)
            &&& r matches Ok(d) ==> cuts(d.mean, mean) && cuts(d.variance, variance) && !d.variance.neg
                && has_root(d)
            &&& r matches Err(NormalError::Mean(e)) ==> !in_reach(mean) && (e is NotFinite <==> !mean.is_finite())
            &&& r matches Err(NormalError::Variance(e)) ==> in_reach(mean) && !in_reach(variance) && (e is NotFinite
                <==> !variance.is_finite())
            &&& r matches Err(NormalError::NegativeVariance) ==> fits && variance.value() <= -pow2(946)
        }),
{
    assert(distance(mean.value()) == units(mean.magnitude()));
    assert(distance(variance.value()) == units(variance.magnitude()));
    if in_reach(mean) {
        lemma_cuts(mean);
    }
    if in_reach(variance) {
        lemma_cuts(variance);
        lemma_truncated_magnitude(variance);
        lemma_root_of(truncated(variance).magnitude());
        lemma_2_to_128();
        let q = truncated(variance).magnitude();
        let w = pow2(946);
        lemma_pow2_pos(946);
        assert(distance(variance.value()) >= w <==> q > 0) by (nonlinear_arith)
            requires
                q * w <= distance(variance.value()) < (q + 1) * w,
                w > 0,
        ;
    }
}

/// `from_moments` builds the distribution with the given moments.
pub proof fn law_from_moments_has_its_moments(
    mean: Binary64,
    variance: Binary64,
    r: Result<NormalDistribution, NormalError>,
)
    requires
        call_ensures(NormalDistribution::from_moments, (mean, variance), r),
    ensures
        ({
            let fits = in_reach(mean) && in_reach(variance);
            &&& r is Ok <==> fits && variance.value() > -pow2(946)
            &&& r matches Ok(d) ==> cuts(d.mean, mean) && cuts(d.variance, variance) && !d.variance.neg
                && has_root(d)
            &&& r matches Err(NormalError::Mean(e)) ==> !in_reach(mean) && (e is NotFinite <==> !mean.is_finite())
            &&& r matches Err(NormalError::Variance(e)) ==> in_reach(mean) && !in_reach(variance) && (e is NotFinite
                <==> !variance.is_finite())
            &&& r matches Err(NormalError::NegativeVariance) ==> fits && variance.value() <= -pow2(946)
        }),
{
    lemma_normal_has_its_moments(mean, variance);
}

/// `make_normal` builds the distribution with the given mean and the square of the
/// given standard deviation as its variance; no standard deviation is too low.
pub proof fn law_make_normal_has_its_moments(
    mu: Binary64,
    sigma: Binary64,
    r: Result<NormalDistribution, NormalError>,
)
    requires
        call_ensures(make_normal, (mu, sigma), r),
    ensures
        r is Ok <==> in_reach(mu) && in_reach(product(sigma, sigma)),
        r matches Ok(d) ==> cuts(d.mean, mu) && cuts(d.variance, product(sigma, sigma)) && has_root(d),
        r matches Err(NormalError::Mean(e)) ==> !in_reach(mu) && (e is NotFinite <==> !mu.is_finite()),
        r matches Err(NormalError::Variance(e)) ==> in_reach(mu) && !in_reach(product(sigma, sigma)),
        !(r matches Err(NormalError::NegativeVariance)),
{
    let v = product(sigma, sigma);
    lemma_square_has_no_sign(sigma);
    lemma_normal_has_its_moments(mu, v);
    lemma_pow2_pos(946);
}

/// A square is no number, or not below zero.
pub proof fn lemma_square_has_no_sign(a: Binary64)
    ensures
        product(a, a).is_finite() ==> unsigned(product(a, a)) && product(a, a).value() >= 0,
        product(a, a).is_nan() || unsigned(product(a, a)),
        !product(a, a).is_negative(),
{
    reveal(product);
    lemma_rounded_max(units(a.magnitude()) * units(a.magnitude()), pow2(1074));
}

/// Parts that are close to what they should be, added up from the lowest.
proof fn lemma_four_parts(
    x: (real, real, real, real),
    y: (real, real, real, real),
    f: real,
    low: real,
    all: real,
    e: real,
    t: real,
)
    requires
        (0 as real) < e,
        e * (1024 as real) < (1 as real),
        (0 as real) < t,
        x.0 >= (0 as real) && x.1 >= (0 as real) && x.2 >= (0 as real) && x.3 >= (0 as real),
        abs(y.0 - x.0) <= (3 as real) * (e * x.0) + (2 as real) * t,
        abs(y.1 - x.1) <= (3 as real) * (e * x.1) + (2 as real) * t,
        abs(y.2 - x.2) <= (3 as real) * (e * x.2) + (2 as real) * t,
        abs(y.3 - x.3) <= (3 as real) * (e * x.3) + (2 as real) * t,
        abs(f - (y.0 + y.1)) <= e * abs(y.0 + y.1),
        abs(low - (f + y.2)) <= e * abs(f + y.2),
        abs(all - (y.3 + low)) <= e * abs(y.3 + low),
    ensures
        abs(all - (x.0 + x.1 + x.2 + x.3)) <= (12 as real) * (e * (x.0 + x.1 + x.2 + x.3)) + (16 as real) * t,
{
    let s = x.0 + x.1 + x.2 + x.3;
    let (es, et) = (e * s, e * t);
    let (a, b, c, d) = (e * x.0, e * x.1, e * x.2, e * x.3);
    assert(es == a + b + c + d && a >= (0 as real) && b >= (0 as real) && c >= (0 as real) && d >= (0 as real))
        by (nonlinear_arith)
        requires
            s == x.0 + x.1 + x.2 + x.3,
            es == e * s,
            a == e * x.0,
            b == e * x.1,
            c == e * x.2,
            d == e * x.3,
            e > (0 as real),
            x.0 >= (0 as real),
            x.1 >= (0 as real),
            x.2 >= (0 as real),
            x.3 >= (0 as real),
    ;
    assert(es * (1024 as real) <= s && et * (1024 as real) <= t && et > (0 as real)) by (nonlinear_arith)
        requires
            es == e * s,
            et == e * t,
            s >= (0 as real),
            t > (0 as real),
            e > (0 as real),
            e * (1024 as real) < (1 as real),
    ;
    let z = (2 as real) * s + (32 as real) * t;
    assert(e * z == (2 as real) * es + (32 as real) * et) by (nonlinear_arith)
        requires
            z == (2 as real) * s + (32 as real) * t,
            es == e * s,
            et == e * t,
    ;
    let (p, q, r) = (abs(y.0 + y.1), abs(f + y.2), abs(y.3 + low));
    assert(p <= z);
    assert(e * p <= e * z) by (nonlinear_arith)
        requires
            p <= z,
            e > (0 as real),
    ;
    assert(q <= z);
    assert(e * q <= e * z) by (nonlinear_arith)
        requires
            q <= z,
            e > (0 as real),
    ;
    assert(r <= z);
    assert(e * r <= e * z) by (nonlinear_arith)
        requires
            r <= z,
            e > (0 as real),
    ;
}

/// A whole number is held but for one part in `2^53`.
pub proof fn lemma_whole_is_accurate(n: nat, e: int)
    requires
        n <= pow2(e as nat),
        0 <= e < 1024,
    ensures
        up_to(whole(n), e),
        unsigned(whole(n)),
        abs(number(whole(n)) - n as real) <= eps() * (n as real),
{
    reveal(whole);
    lemma_small();
    let k = pow2(1074);
    lemma_pow2_pos(1074);
    lemma_pow2_adds(e as nat, 1074);
    assert(n * k <= pow2(e as nat) * k) by (nonlinear_arith)
        requires
            n <= pow2(e as nat),
    ;
    lemma_rounded_at_most(n * k, 1, (1074 + e) as nat);
    law_rounding_error(n * k, 1);
    let w = whole(n);
    let off = w.value() - n * k;
    assert(negligible(off, n * k as int));
    lemma_negligible(off, n * k as int, k as real);
    lemma_real_product(n as int, k as int);
    let (x, y, z) = (n as real, k as real, w.value() as real);
    assert((x * y) / y == x && z / y - x == (z - x * y) / y) by (nonlinear_arith)
        requires
            y > (0 as real),
    ;
}

/// A scaled limb is held but for rounding.
proof fn lemma_limb_is_accurate(n: u64)
    ensures
        ({
            let x = n as real;
            let a = quotient(whole(n as nat), two_to_the_128());
            let b = quotient(whole(n as nat), two_to_the_64());
            let c = whole(n as nat);
            let d = product(whole(n as nat), two_to_the_64());
            let w = (0x1_0000_0000_0000_0000 as real);
            &&& up_to(a, 64) && up_to(b, 64) && up_to(c, 64) && up_to(d, 128)
            &&& unsigned(a) && unsigned(b) && unsigned(c) && unsigned(d)
            &&& abs(number(a) - x / (w * w)) <= (3 as real) * (eps() * (x / (w * w))) + (2 as real) * tiny()
            &&& abs(number(b) - x / w) <= (3 as real) * (eps() * (x / w)) + (2 as real) * tiny()
            &&& abs(number(c) - x) <= (3 as real) * (eps() * x) + (2 as real) * tiny()
            &&& abs(number(d) - x * w) <= (3 as real) * (eps() * (x * w)) + (2 as real) * tiny()
            &&& x / (w * w) >= (0 as real) && x / w >= (0 as real) && x * w >= (0 as real)
        }),
{
    lemma_small();
    lemma_scales();
    lemma2_to64();
    lemma_whole_is_accurate(n as nat, 64);
    let (p64, p128) = (two_to_the_64(), two_to_the_128());
    let c = whole(n as nat);
    lemma_pow2_pos(1138);
    lemma_pow2_pos(1202);
    lemma_quotient_up_to(c, p128, 64, 128);
    lemma_quotient_up_to(c, p64, 64, 64);
    lemma_product_up_to(c, p64, 64, 64);
    law_quotient_is_accurate(c, p128);
    law_quotient_is_accurate(c, p64);
    law_product_is_accurate(c, p64);
    assert(unsigned(quotient(c, p128)) && unsigned(quotient(c, p64)) && unsigned(product(c, p64))) by {
        reveal(quotient);
        reveal(product);
    }
    lemma_up_to_more(quotient(c, p128), -64, 64);
    lemma_up_to_more(quotient(c, p64), 0, 64);
    let w = (0x1_0000_0000_0000_0000 as real);
    lemma_real_scales();
    let (x, z) = (n as real, number(c));
    let ww = w * w;
    assert(ww > (0 as real)) by (nonlinear_arith)
        requires
            w > (0 as real),
            ww == w * w,
    ;
    lemma_scaled_part(x, z, ww, number(quotient(c, p128)), eps(), tiny());
    lemma_scaled_part(x, z, w, number(quotient(c, p64)), eps(), tiny());
    let v = (1 as real) / w;
    assert(v > (0 as real) && z / v == z * w && x / v == x * w) by (nonlinear_arith)
        requires
            v == (1 as real) / w,
            w > (0 as real),
    ;
    lemma_scaled_part(x, z, v, number(product(c, p64)), eps(), tiny());
    let ex = eps() * x;
    assert(ex >= (0 as real)) by (nonlinear_arith)
        requires
            ex == eps() * x,
            x >= (0 as real),
            eps() > (0 as real),
    ;
}

/// The powers of two that limbs are scaled by, as real numbers.
proof fn lemma_real_scales()
    ensures
        ({
            let w = (0x1_0000_0000_0000_0000 as real);
            &&& number(two_to_the_64()) == w
            &&& number(two_to_the_128()) == w * w
        }),
{
    lemma_scales();
    lemma_small();
    lemma2_to64();
    lemma_pow2_adds(1074, 64);
    lemma_pow2_adds(1138, 64);
    let (k, b) = (pow2(1074) as int, 0x1_0000_0000_0000_0000int);
    lemma_real_product(k, b);
    lemma_real_product(k * b, b);
    let (y, w) = (k as real, b as real);
    assert((y * w) / y == w && ((y * w) * w) / y == w * w) by (nonlinear_arith)
        requires
            y > (0 as real),
    ;
}

/// A number that is close to another, divided.
proof fn lemma_scaled_part(x: real, z: real, w: real, r: real, e: real, t: real)
    requires
        (0 as real) < e,
        e * (1024 as real) < (1 as real),
        (0 as real) < t,
        x >= (0 as real),
        w > (0 as real),
        abs(z - x) <= e * x,
        abs(r - z / w) <= e * abs(z / w) + t,
    ensures
        abs(r - x / w) <= (3 as real) * (e * (x / w)) + (2 as real) * t,
        x / w >= (0 as real),
{
    let (a, b) = (x / w, z / w);
    let ea = e * a;
    assert(a >= (0 as real) && b - a <= ea && a - b <= ea) by (nonlinear_arith)
        requires
            a == x / w,
            b == z / w,
            ea == e * a,
            z - x <= e * x,
            x - z <= e * x,
            x >= (0 as real),
            w > (0 as real),
    ;
    assert(ea >= (0 as real) && e * ea <= ea) by (nonlinear_arith)
        requires
            ea == e * a,
            a >= (0 as real),
            e > (0 as real),
            e <= (1 as real),
    ;
    assert(e * abs(b) <= (2 as real) * ea) by (nonlinear_arith)
        requires
            abs(b) <= a + ea,
            ea == e * a,
            e * ea <= ea,
            e > (0 as real),
    ;
}

/// `to_binary64` gives the fixed-point number, but for rounding: it is off by no
/// more than sixteen parts in `2^53`, and on the same side of zero.
pub proof fn law_to_binary64_is_accurate(q: Sq128, r: Binary64)
    requires
        call_ensures(Sq128::to_binary64, (q,), r),
    ensures
        up_to(r, 131),
        r.value() < 0 ==> q.is_negative(),
        r.value() > 0 ==> !q.neg,
        ({
            let w = (0x1_0000_0000_0000_0000 as real);
            let x = q.magnitude() as real / (w * w);
            abs(number(r) - if q.neg {
                -x
            } else {
                x
            }) <= (12 as real) * (eps() * x) + (16 as real) * tiny()
        }),
{
    lemma_approximation_is_accurate(q);
}

/// The four limbs of a magnitude as real numbers.
proof fn lemma_real_limbs(q: Sq128)
    ensures
        ({
            let w = 0x1_0000_0000_0000_0000 as real;
            let (l0, l1, l2, l3) = (q.limb0 as real, q.limb1 as real, q.limb2 as real, q.limb3 as real);
            q.magnitude() as real / (w * w) == l0 / (w * w) + l1 / w + l2 + l3 * w
        }),
{
    let w = 0x1_0000_0000_0000_0000 as real;
    let (l0, l1, l2, l3) = (q.limb0 as real, q.limb1 as real, q.limb2 as real, q.limb3 as real);
    let (i0, i1, i2, i3) = (q.limb0 as int, q.limb1 as int, q.limb2 as int, q.limb3 as int);
    let base = limb_base() as int;
    lemma_real_product(base, i3);
    lemma_real_product(base, i2 + base * i3);
    lemma_real_product(base, i1 + base * (i2 + base * i3));
    let m = q.magnitude() as real;
    let ww = w * w;
    assert(m == l0 + w * (l1 + w * (l2 + w * l3)));
    assert(m / ww == l0 / ww + l1 / w + l2 + l3 * w) by (nonlinear_arith)
        requires
            m == l0 + w * (l1 + w * (l2 + w * l3)),
            w > (0 as real),
            ww == w * w,
    ;
}

/// The magnitude of what fixed point stands for.
spec fn added_up(q: Sq128) -> Binary64 {
    approximation(Sq128 { neg: false, ..q })
}

/// The limbs, added up, are close to the magnitude.
proof fn lemma_added_up(q: Sq128)
    ensures
        ({
            let w = 0x1_0000_0000_0000_0000 as real;
            let x = q.magnitude() as real / (w * w);
            &&& up_to(added_up(q), 129)
            &&& unsigned(added_up(q))
            &&& abs(number(added_up(q)) - x) <= (12 as real) * (eps() * x) + (16 as real) * tiny()
        }),
{
    lemma_small();
    lemma_limb_is_accurate(q.limb0);
    lemma_limb_is_accurate(q.limb1);
    lemma_limb_is_accurate(q.limb2);
    lemma_limb_is_accurate(q.limb3);
    lemma_real_limbs(q);
    let a = quotient(whole(q.limb0 as nat), two_to_the_128());
    let b = quotient(whole(q.limb1 as nat), two_to_the_64());
    let c = whole(q.limb2 as nat);
    let d = product(whole(q.limb3 as nat), two_to_the_64());
    let f = sum(a, b);
    let low = sum(f, c);
    let all = sum(d, low);
    assert(all == added_up(q));
    lemma_sum_up_to(a, b, 64);
    lemma_up_to_more(c, 64, 65);
    lemma_sum_up_to(f, c, 65);
    lemma_up_to_more(low, 66, 128);
    lemma_sum_up_to(d, low, 128);
    law_sum_is_accurate(a, b);
    law_sum_is_accurate(f, c);
    law_sum_is_accurate(d, low);
    law_sum_grows(a, b);
    law_sum_grows(f, c);
    law_sum_grows(d, low);
    let w = 0x1_0000_0000_0000_0000 as real;
    let (l0, l1, l2, l3) = (q.limb0 as real, q.limb1 as real, q.limb2 as real, q.limb3 as real);
    lemma_four_parts(
        (l0 / (w * w), l1 / w, l2, l3 * w),
        (number(a), number(b), number(c), number(d)),
        number(f),
        number(low),
        number(all),
        eps(),
        tiny(),
    );
}

/// Nothing adds up to nothing.
proof fn lemma_nothing_added_up(q: Sq128)
    requires
        q.magnitude() == 0,
    ensures
        added_up(q) == signed(false, 0),
{
    let zero = signed(false, 0);
    assert(q.limb0 == 0 && q.limb1 == 0 && q.limb2 == 0 && q.limb3 == 0);
    lemma_pow2_pos(1202);
    lemma_pow2_pos(1074);
    assert(units(zero.magnitude()) * pow2(128) == 0) by (nonlinear_arith)
        requires
            units(zero.magnitude()) == 0,
    ;
    vstd::arithmetic::div_mod::lemma_small_mod(0, pow2(1074));
    law_read_back(zero);
    lemma_truncated_magnitude(zero);
    assert(truncated(zero) == Sq128 { neg: false, ..q });
}

/// The same, of the specification.
pub proof fn lemma_approximation_is_accurate(q: Sq128)
    ensures
        ({
            let r = approximation(q);
            let w = 0x1_0000_0000_0000_0000 as real;
            let x = q.magnitude() as real / (w * w);
            &&& up_to(r, 131)
            &&& r.value() < 0 ==> q.is_negative()
            &&& r.value() > 0 ==> !q.neg
            &&& abs(number(r) - if q.neg {
                -x
            } else {
                x
            }) <= (12 as real) * (eps() * x) + (16 as real) * tiny()
        }),
{
    let all = added_up(q);
    lemma_added_up(q);
    lemma_up_to_more(all, 129, 131);
    lemma_number(all);
    assert(approximation(q) == if q.neg {
        opposite(all)
    } else {
        all
    });
    assert(opposite(all).value() == -all.value());
    if q.magnitude() == 0 {
        lemma_nothing_added_up(q);
    }
}

} // verus!
