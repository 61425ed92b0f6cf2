//! What a timeline holds, in terms of what was asked for.

use vstd::prelude::*;
use vstd::arithmetic::power2::*;
use crate::binary64::{
    difference, greater, law_nan_propagates, opposite, product, ratio, sum, whole, Binary64,
};
use crate::conversions::{
    cuts, has_root, in_reach, lemma_normal_has_its_moments, lemma_square_has_no_sign,
};
use crate::gaussian::half;
use crate::market::{NormalDistribution, NormalError, SimDistribution};
use crate::operations::lemma_ratio_is_accurate;
use crate::reals::{
    abs, eps, law_product_is_accurate, law_sum_is_accurate, lemma_finite_product, lemma_finite_sum,
    lemma_number, lemma_number_order, lemma_product_up_to, lemma_real_product, lemma_small, lemma_sum_up_to, lemma_times_keeps_order,
    lemma_up_to_more, number, tiny, up_to,
};
use crate::rounding::{lemma_held, lemma_pow2_le, lemma_rounded_scale, lemma_units_increase};
use crate::synthetic::{
    build, law_progress_grows, law_quotes_are_not_degenerate, lemma_one, lemma_progress, one,
    Timeline, TimelineEvent, TimelineSpec,
};

verus! {

/// How much of the drift is done at trade `i`, in real numbers.
pub open spec fn done(spec: TimelineSpec, i: int) -> real {
    (i + 1) as real / spec.steps as real
}

/// A bound on the rounding of a drift between numbers that far from zero.
pub open spec fn slack(size: real) -> real {
    (16 as real) * (eps() * size) + (16 as real) * (tiny() * (size + (1 as real)))
}

/// Whether `mu` is the mean at trade `i`, but for rounding: on the straight line from
/// the first mean to the target, and off it by what is left of the jitter, up on even
/// trades and down on odd ones.
pub open spec fn is_mean_at(spec: TimelineSpec, i: int, mu: Binary64) -> bool {
    let (a, b, j) = (number(spec.initial_mu), number(spec.market_target_mu), number(spec.jitter));
    let t = done(spec, i);
    let w = if i % 2 == 0 {
        j
    } else {
        -j
    };
    abs(number(mu) - (a + (b - a) * t + w * ((1 as real) - t))) <= slack(abs(a) + abs(b - a) + abs(j))
}

/// Whether `sigma` is the standard deviation at trade `i`, but for rounding: on the
/// straight line from the first one to the target, but one half at least.
pub open spec fn is_sigma_at(spec: TimelineSpec, i: int, sigma: Binary64) -> bool {
    let (a, b) = (number(spec.initial_sigma), number(spec.market_target_sigma));
    let line = a + (b - a) * done(spec, i);
    let s = slack(abs(a) + abs(b - a));
    &&& sigma.is_finite() && number(sigma) >= (1 as real) / (2 as real)
    &&& abs(number(sigma) - line) <= s || (number(sigma) == (1 as real) / (2 as real) && line <= number(sigma) + s)
}

/// Whether all numbers of a timeline are no more than `2^e` away from zero.
pub open spec fn sized(spec: TimelineSpec, e: int) -> bool {
    &&& up_to(spec.initial_mu, e) && up_to(spec.market_target_mu, e) && up_to(spec.jitter, e)
    &&& up_to(spec.initial_sigma, e) && up_to(spec.market_target_sigma, e)
}

/// The progress is the fraction, but for rounding.
proof fn lemma_done(spec: TimelineSpec, i: int)
    requires
        0 <= i < spec.steps < 0x0020_0000_0000_0000,
    ensures
        up_to(spec.progress(i), 0),
        up_to(one(), 0),
        number(one()) == (1 as real),
        (0 as real) <= number(spec.progress(i)) <= (1 as real),
        (0 as real) <= done(spec, i) <= (1 as real),
        abs(number(spec.progress(i)) - done(spec, i)) <= eps() + tiny(),
{
    let (a, n, k) = ((i + 1) as nat, spec.steps as nat, pow2(1074));
    let t = spec.progress(i);
    lemma_small();
    lemma_progress(spec, i);
    lemma_one();
    law_progress_grows(spec, i, i);
    lemma_pow2_pos(1074);
    lemma_rounded_scale(a * k, n, k);
    assert(t == ratio(a, n)) by {
        reveal(ratio);
    }
    lemma_ratio_is_accurate(a, n);
    if t.magnitude() < one().magnitude() {
        lemma_units_increase(t.magnitude(), one().magnitude());
    }
    lemma_number(t);
    lemma_number(one());
    let kr = k as real;
    assert(kr / kr == (1 as real)) by (nonlinear_arith)
        requires
            kr > (0 as real),
    ;
    lemma_number_order(one(), t);
    let (x, y) = (a as real, n as real);
    let q = x / y;
    assert((0 as real) <= q && q <= (1 as real)) by (nonlinear_arith)
        requires
            q == x / y,
            (0 as real) <= x,
            x <= y,
            y > (0 as real),
    ;
    lemma_times_keeps_order(q, (1 as real), eps());
}

/// What a difference times the progress comes to.
proof fn lemma_drift(d: real, dr: real, t: real, tau: real, p: real, e: real, h: real)
    requires
        (0 as real) < e,
        e * (1024 as real) < (1 as real),
        (0 as real) < h,
        abs(dr - d) <= e * abs(d),
        (0 as real) <= t <= (1 as real),
        (0 as real) <= tau <= (1 as real),
        abs(t - tau) <= e + h,
        abs(p - dr * t) <= e * abs(dr * t) + h,
    ensures
        abs(p - d * tau) <= (4 as real) * (e * abs(d)) + h * abs(d) + h,
        abs(d * tau) <= abs(d),
{
    let a = abs(d);
    let (ea, ha) = (e * a, h * a);
    lemma_times_keeps_order((0 as real), a, e);
    lemma_times_keeps_order((0 as real), a, h);
    lemma_times_keeps_order(e, (1 as real), a);
    // The exact factor against the rounded one.
    let x = dr - d;
    lemma_bounded_product(x, t, ea, (1 as real));
    assert(x * t == dr * t - d * t) by (nonlinear_arith)
        requires
            x == dr - d,
    ;
    let y = t - tau;
    lemma_bounded_product(d, y, a, e + h);
    assert(d * y == d * t - d * tau) by (nonlinear_arith)
        requires
            y == t - tau,
    ;
    assert(a * (e + h) == ea + ha) by (nonlinear_arith)
        requires
            ea == e * a,
            ha == h * a,
    ;
    // The rounded product.
    lemma_bounded_product(dr, t, (2 as real) * a, (1 as real));
    lemma_times_keeps_order(abs(dr * t), (2 as real) * a, e);
    assert(e * ((2 as real) * a) == (2 as real) * ea) by (nonlinear_arith)
        requires
            ea == e * a,
    ;
    lemma_bounded_product(d, tau, a, (1 as real));
}

/// A product of bounded numbers.
proof fn lemma_bounded_product(x: real, y: real, a: real, b: real)
    requires
        abs(x) <= a,
        abs(y) <= b,
    ensures
        abs(x * y) <= a * b,
{
    let (p, q) = (abs(x), abs(y));
    lemma_times_keeps_order(p, a, q);
    lemma_times_keeps_order(q, b, a);
    assert(abs(x * y) == p * q) by {
        assert((-x) * y == -(x * y) && x * (-y) == -(x * y) && (-x) * (-y) == x * y) by (nonlinear_arith);
        lemma_times_keeps_order((0 as real), p, q);
    }
}

/// Where the straight line leads, with the sum rounded.
proof fn lemma_line(a: real, d: real, dt: real, p: real, s: real, e: real, h: real)
    requires
        (0 as real) < e,
        e * (1024 as real) < (1 as real),
        (0 as real) < h,
        abs(dt) <= abs(d),
        abs(p - dt) <= (4 as real) * (e * abs(d)) + h * abs(d) + h,
        abs(s - (a + p)) <= e * abs(a + p),
    ensures
        abs(s - (a + dt)) <= e * abs(a) + (6 as real) * (e * abs(d)) + (2 as real) * (h * abs(d) + h),
{
    let (u, v) = (abs(a), abs(d));
    let (eu, ev, hv) = (e * u, e * v, h * v);
    lemma_times_keeps_order((0 as real), v, e);
    lemma_times_keeps_order((0 as real), v, h);
    lemma_times_keeps_order(e * (1024 as real), (1 as real), v);
    assert((e * (1024 as real)) * v == (1024 as real) * ev) by (nonlinear_arith)
        requires
            ev == e * v,
    ;
    let m = hv + h;
    let z = u + (2 as real) * v + m;
    assert(abs(a + p) <= z);
    lemma_times_keeps_order(abs(a + p), z, e);
    assert(e * z == eu + (2 as real) * ev + e * m) by (nonlinear_arith)
        requires
            z == u + (2 as real) * v + m,
            eu == e * u,
            ev == e * v,
    ;
    lemma_times_keeps_order(e, (1 as real), m);
}

/// What is left of the jitter, with both operations rounded.
proof fn lemma_rest(w: real, t: real, tau: real, r: real, x: real, e: real, h: real)
    requires
        (0 as real) < e,
        e * (1024 as real) < (1 as real),
        (0 as real) < h,
        h * (1024 as real) < (1 as real),
        (0 as real) <= t <= (1 as real),
        (0 as real) <= tau <= (1 as real),
        abs(t - tau) <= e + h,
        abs(r - ((1 as real) - t)) <= e * abs((1 as real) - t),
        abs(x - w * r) <= e * abs(w * r) + h,
    ensures
        abs(x - w * ((1 as real) - tau)) <= (4 as real) * (e * abs(w)) + h * abs(w) + h,
        abs(w * ((1 as real) - tau)) <= abs(w),
{
    let v = abs(w);
    let (ev, hv) = (e * v, h * v);
    lemma_times_keeps_order((0 as real), v, e);
    lemma_times_keeps_order((0 as real), v, h);
    lemma_times_keeps_order(abs((1 as real) - t), (1 as real), e);
    let y = r - ((1 as real) - tau);
    lemma_bounded_product(w, y, v, (2 as real) * e + h);
    assert(w * y == w * r - w * ((1 as real) - tau)) by (nonlinear_arith)
        requires
            y == r - ((1 as real) - tau),
    ;
    assert(v * ((2 as real) * e + h) == (2 as real) * ev + hv) by (nonlinear_arith)
        requires
            ev == e * v,
            hv == h * v,
    ;
    lemma_bounded_product(w, r, v, (2 as real));
    lemma_times_keeps_order(abs(w * r), v * (2 as real), e);
    assert(e * (v * (2 as real)) == (2 as real) * ev) by (nonlinear_arith)
        requires
            ev == e * v,
    ;
    lemma_bounded_product(w, (1 as real) - tau, v, (1 as real));
}

/// Line and jitter together, with the sum rounded.
proof fn lemma_quote(a: real, d: real, dt: real, s: real, w: real, wt: real, x: real, m: real, e: real, h: real)
    requires
        (0 as real) < e,
        e * (1024 as real) < (1 as real),
        (0 as real) < h,
        abs(dt) <= abs(d),
        abs(wt) <= abs(w),
        abs(s - (a + dt)) <= e * abs(a) + (6 as real) * (e * abs(d)) + (2 as real) * (h * abs(d) + h),
        abs(x - wt) <= (4 as real) * (e * abs(w)) + h * abs(w) + h,
        abs(m - (s + x)) <= e * abs(s + x),
    ensures
        abs(m - (a + dt + wt)) <= (16 as real) * (e * (abs(a) + abs(d) + abs(w))) + (16 as real) * (h * (abs(a) + abs(d)
            + abs(w) + (1 as real))),
{
    let (u, v, z) = (abs(a), abs(d), abs(w));
    let b = u + v + z;
    let (eb, hb) = (e * b, h * b);
    let (eu, ev, ez, hu, hv, hz) = (e * u, e * v, e * z, h * u, h * v, h * z);
    lemma_times_keeps_order((0 as real), u, e);
    lemma_times_keeps_order((0 as real), v, e);
    lemma_times_keeps_order((0 as real), z, e);
    lemma_times_keeps_order((0 as real), u, h);
    lemma_times_keeps_order((0 as real), v, h);
    lemma_times_keeps_order((0 as real), z, h);
    assert(eb == eu + ev + ez) by (nonlinear_arith)
        requires
            b == u + v + z,
            eb == e * b,
            eu == e * u,
            ev == e * v,
            ez == e * z,
    ;
    assert(hb == hu + hv + hz) by (nonlinear_arith)
        requires
            b == u + v + z,
            hb == h * b,
            hu == h * u,
            hv == h * v,
            hz == h * z,
    ;
    assert(h * (b + (1 as real)) == hb + h) by (nonlinear_arith)
        requires
            hb == h * b,
    ;
    lemma_times_keeps_order(e * (1024 as real), (1 as real), b);
    assert((e * (1024 as real)) * b == (1024 as real) * eb) by (nonlinear_arith)
        requires
            eb == e * b,
    ;
    let c = (2 as real) * b + (4 as real) * (hb + h);
    assert(abs(s + x) <= c);
    lemma_times_keeps_order(abs(s + x), c, e);
    assert(e * c == (2 as real) * eb + (4 as real) * (e * (hb + h))) by (nonlinear_arith)
        requires
            c == (2 as real) * b + (4 as real) * (hb + h),
            eb == e * b,
    ;
    lemma_times_keeps_order(e, (1 as real), hb + h);
}

/// The mean at a trade is bounded, and it is what it should be.
proof fn lemma_mean_at(spec: TimelineSpec, i: int, e: int)
    requires
        0 <= i < spec.steps < 0x0020_0000_0000_0000,
        sized(spec, e),
        0 <= e <= 1000,
    ensures
        up_to(spec.mu_at(i), e + 3),
        is_mean_at(spec, i, spec.mu_at(i)),
{
    lemma_small();
    lemma_done(spec, i);
    let t = spec.progress(i);
    let (a, b) = (spec.initial_mu, spec.market_target_mu);
    let w = spec.wave(i);
    let d = difference(b, a);
    let p = product(d, t);
    let s = sum(a, p);
    let r = difference(one(), t);
    let x = product(w, r);
    assert(up_to(w, e)) by {
        assert(opposite(spec.jitter).value() == -spec.jitter.value());
    }
    lemma_number(spec.jitter);
    lemma_number(a);
    lemma_number(t);
    lemma_sum_up_to(b, a, e);
    lemma_product_up_to(d, t, e + 1, 0);
    lemma_up_to_more(a, e, e + 1);
    lemma_sum_up_to(a, p, e + 1);
    lemma_sum_up_to(one(), t, 0);
    lemma_product_up_to(w, r, e, 1);
    lemma_up_to_more(x, e + 1, e + 2);
    lemma_sum_up_to(s, x, e + 2);
    assert(opposite(a).is_finite() && opposite(t).is_finite());
    law_sum_is_accurate(b, opposite(a));
    law_product_is_accurate(d, t);
    law_sum_is_accurate(a, p);
    law_sum_is_accurate(one(), opposite(t));
    law_product_is_accurate(w, r);
    law_sum_is_accurate(s, x);
    let dn = number(b) - number(a);
    let tau = done(spec, i);
    lemma_drift(dn, number(d), number(t), tau, number(p), eps(), tiny());
    lemma_line(number(a), dn, dn * tau, number(p), number(s), eps(), tiny());
    lemma_rest(number(w), number(t), tau, number(r), number(x), eps(), tiny());
    lemma_quote(
        number(a),
        dn,
        dn * tau,
        number(s),
        number(w),
        number(w) * ((1 as real) - tau),
        number(x),
        number(spec.mu_at(i)),
        eps(),
        tiny(),
    );
    assert(abs(number(w)) == abs(number(spec.jitter)));
}

/// The standard deviation at a trade is bounded, and it is what it should be.
proof fn lemma_sigma_at(spec: TimelineSpec, i: int, e: int)
    requires
        0 <= i < spec.steps < 0x0020_0000_0000_0000,
        sized(spec, e),
        0 <= e <= 1000,
    ensures
        up_to(spec.sigma_at(i), e + 2),
        is_sigma_at(spec, i, spec.sigma_at(i)),
{
    lemma_small();
    lemma_done(spec, i);
    law_quotes_are_not_degenerate(spec, i);
    let t = spec.progress(i);
    let (a, b) = (spec.initial_sigma, spec.market_target_sigma);
    let d = difference(b, a);
    let p = product(d, t);
    let s = sum(a, p);
    let sigma = spec.sigma_at(i);
    lemma_number(a);
    lemma_sum_up_to(b, a, e);
    lemma_product_up_to(d, t, e + 1, 0);
    lemma_up_to_more(a, e, e + 1);
    lemma_sum_up_to(a, p, e + 1);
    assert(opposite(a).is_finite());
    law_sum_is_accurate(b, opposite(a));
    law_product_is_accurate(d, t);
    law_sum_is_accurate(a, p);
    let dn = number(b) - number(a);
    let tau = done(spec, i);
    lemma_drift(dn, number(d), number(t), tau, number(p), eps(), tiny());
    lemma_line(number(a), dn, dn * tau, number(p), number(s), eps(), tiny());
    let zero = (0 as real);
    assert(tiny() * zero == zero && eps() * zero == zero) by (nonlinear_arith)
        requires
            zero == (0 as real),
    ;
    assert(eps() * abs(number(s) + zero) >= zero) by {
        lemma_times_keeps_order(zero, abs(number(s) + zero), eps());
    }
    lemma_quote(number(a), dn, dn * tau, number(s), zero, zero, zero, number(s), eps(), tiny());
    // One half at least.
    crate::gaussian::lemma_constants();
    let k = pow2(1074) as real;
    let h = half().value() as real;
    assert(h / k == (1 as real) / (2 as real)) by (nonlinear_arith)
        requires
            (2 as real) * h == k,
            k > (0 as real),
    ;
    lemma_number_order(sigma, half());
    lemma_number_order(half(), s);
    reveal(greater);
    lemma_pow2_unfold(1074);
    lemma_pow2_le(1073, (1074 + e + 2) as nat);
}

/// Whether `candidate` is the quote of trade `i`: its mean and its variance are those of
/// the drift, but for rounding and for their bits below `2^-128`, and its sigma is the
/// root of the variance.
pub open spec fn is_quote_at(spec: TimelineSpec, i: int, candidate: NormalDistribution) -> bool {
    &&& exists|mu: Binary64| #[trigger] is_mean_at(spec, i, mu) && cuts(candidate.mean, mu)
    &&& exists|sigma: Binary64| #[trigger]
        is_sigma_at(spec, i, sigma) && cuts(candidate.variance, product(sigma, sigma))
    &&& has_root(candidate)
}

/// `build` gives a trade for each step and a settlement at the end. Trade `i` is by
/// trader `i + 1` and moves the market to the quote of the drift at that time, at every
/// step and in whichever direction the drift goes. The market starts at the first
/// consensus, with a thousand of backing and of shares, and is settled at the truth.
pub proof fn law_build_follows_the_drift(spec: TimelineSpec, r: Result<Timeline, NormalError>)
    requires
        call_ensures(build, (spec,), r),
        spec.steps < 0x0020_0000_0000_0000,
        sized(spec, 1000),
    ensures
        r matches Ok(timeline) ==> {
            let events = timeline.events@;
            let state = timeline.initial_state;
            &&& events.len() == spec.steps + 1
            &&& events[spec.steps as int] == (TimelineEvent::Settle { x_star: spec.truth_mu })
            &&& forall|i: int|
                0 <= i < spec.steps ==> (#[trigger] events[i] matches TimelineEvent::Trade { trader, candidate }
                    && trader == i + 1 && is_quote_at(spec, i, candidate))
            &&& state.distribution matches SimDistribution::Normal(d) && cuts(d.mean, spec.initial_mu) && cuts(
                d.variance,
                product(spec.initial_sigma, spec.initial_sigma),
            ) && has_root(d)
            &&& number(state.backing) == (1000 as real) && number(state.lp_shares) == (1000 as real)
            &&& state.settlement_x_star is None
        },
{
    if let Ok(timeline) = r {
        lemma_normal_has_its_moments(spec.initial_mu, product(spec.initial_sigma, spec.initial_sigma));
        lemma_number_of_whole(1000);
        assert forall|i: int| 0 <= i < spec.steps implies (#[trigger] timeline.events@[i] matches TimelineEvent::Trade {
            trader,
            candidate,
        } && trader == i + 1 && is_quote_at(spec, i, candidate)) by {
            assert(spec.candidate_at(i) is Ok);
            lemma_mean_at(spec, i, 1000);
            lemma_sigma_at(spec, i, 1000);
            lemma_normal_has_its_moments(spec.mu_at(i), product(spec.sigma_at(i), spec.sigma_at(i)));
            assert(timeline.events@[i] == spec.event_at(i));
        }
    }
}

/// A small whole number is the number.
pub proof fn lemma_number_of_whole(n: nat)
    requires
        n < 0x0020_0000_0000_0000,
    ensures
        number(whole(n)) == n as real,
{
    crate::binary64::law_whole_exact(n);
    lemma_small();
    lemma_real_product(n as int, pow2(1074) as int);
    let (x, k) = (n as real, pow2(1074) as real);
    assert((x * k) / k == x) by (nonlinear_arith)
        requires
            k > (0 as real),
    ;
}

/// `build` succeeds on all timelines of ordinary size, and fails exactly where a moment
/// of the first consensus or of one of the quotes is out of reach; never for a variance
/// below zero.
pub proof fn law_build_succeeds(spec: TimelineSpec, r: Result<Timeline, NormalError>)
    requires
        call_ensures(build, (spec,), r),
    ensures
        spec.steps < 0x0020_0000_0000_0000 && sized(spec, 60) ==> r is Ok,
        !in_reach(spec.initial_mu) ==> (r matches Err(e) && e is Mean),
        in_reach(spec.initial_mu) && !in_reach(product(spec.initial_sigma, spec.initial_sigma)) ==> (
        r matches Err(e) && e is Variance),
        !(r matches Err(NormalError::NegativeVariance)),
        r is Ok ==> forall|i: int|
            0 <= i < spec.steps ==> in_reach(#[trigger] spec.mu_at(i)) && in_reach(
                product(spec.sigma_at(i), spec.sigma_at(i)),
            ),
        r matches Err(e) ==> !in_reach(spec.initial_mu) || !in_reach(
            product(spec.initial_sigma, spec.initial_sigma),
        ) || exists|i: int|
            0 <= i < spec.steps && (!in_reach(#[trigger] spec.mu_at(i)) || !in_reach(
                product(spec.sigma_at(i), spec.sigma_at(i)),
            )),
{
    let first = product(spec.initial_sigma, spec.initial_sigma);
    lemma_normal_has_its_moments(spec.initial_mu, first);
    lemma_square_has_no_sign(spec.initial_sigma);
    lemma_pow2_pos(946);
    assert forall|i: int| 0 <= i < spec.steps implies ((#[trigger] spec.candidate_at(i)) is Ok <==> in_reach(
        spec.mu_at(i),
    ) && in_reach(product(spec.sigma_at(i), spec.sigma_at(i)))) && !(spec.candidate_at(i) matches Err(
        NormalError::NegativeVariance,
    )) by {
        lemma_normal_has_its_moments(spec.mu_at(i), product(spec.sigma_at(i), spec.sigma_at(i)));
        lemma_square_has_no_sign(spec.sigma_at(i));
    }
    assert(r is Ok ==> forall|i: int| 0 <= i < spec.steps ==> (#[trigger] spec.candidate_at(i)) is Ok);
    if r is Ok {
        assert forall|i: int| 0 <= i < spec.steps implies in_reach(#[trigger] spec.mu_at(i)) && in_reach(
            product(spec.sigma_at(i), spec.sigma_at(i)),
        ) by {
            assert(spec.candidate_at(i) is Ok);
        }
    }
    if let Err(e) = r {
        if spec.initial() is Ok {
            let i = choose|i: int|
                0 <= i < spec.steps && spec.holds_up_to(i) && #[trigger] spec.candidate_at(i) == Err::<
                    NormalDistribution,
                    NormalError,
                >(e);
            assert(!in_reach(spec.mu_at(i)) || !in_reach(product(spec.sigma_at(i), spec.sigma_at(i))));
        }
    }
    if spec.steps < 0x0020_0000_0000_0000 && sized(spec, 60) {
        lemma_in_reach(spec.initial_mu, 60);
        lemma_product_up_to(spec.initial_sigma, spec.initial_sigma, 60, 60);
        lemma_in_reach(first, 120);
        assert forall|i: int| 0 <= i < spec.steps implies in_reach(#[trigger] spec.mu_at(i)) && in_reach(
            product(spec.sigma_at(i), spec.sigma_at(i)),
        ) by {
            lemma_mean_at(spec, i, 60);
            lemma_sigma_at(spec, i, 60);
            lemma_in_reach(spec.mu_at(i), 63);
            lemma_product_up_to(spec.sigma_at(i), spec.sigma_at(i), 62, 62);
            lemma_in_reach(product(spec.sigma_at(i), spec.sigma_at(i)), 124);
        }
    }
}

/// A timeline whose target mean or whose jitter is no finite number is refused at its
/// first trade. A target standard deviation that is no number leaves every quote at one
/// half.
pub proof fn law_build_without_numbers(spec: TimelineSpec, r: Result<Timeline, NormalError>)
    requires
        call_ensures(build, (spec,), r),
        0 < spec.steps < 0x0020_0000_0000_0000,
        in_reach(spec.initial_mu),
        in_reach(product(spec.initial_sigma, spec.initial_sigma)),
    ensures
        !spec.market_target_mu.is_finite() || !spec.jitter.is_finite() ==> (r matches Err(e) && e is Mean),
        spec.market_target_sigma.is_nan() ==> {
            r matches Ok(timeline) ==> forall|i: int|
                0 <= i < spec.steps ==> (#[trigger] timeline.events@[i] matches TimelineEvent::Trade { candidate, .. }
                    && cuts(candidate.variance, product(half(), half())))
        },
{
    lemma_normal_has_its_moments(spec.initial_mu, product(spec.initial_sigma, spec.initial_sigma));
    lemma_square_has_no_sign(spec.initial_sigma);
    lemma_pow2_pos(946);
    let t = spec.progress(0);
    let d = difference(spec.market_target_mu, spec.initial_mu);
    let p = product(d, t);
    let s = sum(spec.initial_mu, p);
    let x = product(spec.wave(0), difference(one(), t));
    if !spec.market_target_mu.is_finite() || !spec.jitter.is_finite() {
        if spec.mu_at(0).is_finite() {
            lemma_finite_sum(s, x);
            lemma_finite_sum(spec.initial_mu, p);
            lemma_finite_product(d, t);
            lemma_finite_sum(spec.market_target_mu, opposite(spec.initial_mu));
            lemma_finite_product(spec.wave(0), difference(one(), t));
        }
        lemma_normal_has_its_moments(spec.mu_at(0), product(spec.sigma_at(0), spec.sigma_at(0)));
        assert(spec.candidate_at(0) is Err);
        if let Err(e) = r {
            let i = choose|i: int|
                0 <= i < spec.steps && spec.holds_up_to(i) && #[trigger] spec.candidate_at(i) == Err::<
                    NormalDistribution,
                    NormalError,
                >(e);
            assert(i == 0);
        }
    }
    if spec.market_target_sigma.is_nan() {
        if let Ok(timeline) = r {
            assert forall|i: int| 0 <= i < spec.steps implies (
            #[trigger] timeline.events@[i] matches TimelineEvent::Trade { candidate, .. } && cuts(
                candidate.variance,
                product(half(), half()),
            )) by {
                let u = spec.progress(i);
                let g = difference(spec.market_target_sigma, spec.initial_sigma);
                law_nan_propagates(spec.market_target_sigma, spec.initial_sigma);
                law_nan_propagates(g, u);
                law_nan_propagates(spec.initial_sigma, product(g, u));
                law_nan_propagates(sum(spec.initial_sigma, product(g, u)), half());
                assert(spec.sigma_at(i) == half()) by {
                    reveal(greater);
                }
                assert(spec.candidate_at(i) is Ok);
                lemma_normal_has_its_moments(spec.mu_at(i), product(half(), half()));
                assert(timeline.events@[i] == spec.event_at(i));
            }
        }
    }
}

/// What is bounded well below `2^128` is in reach.
proof fn lemma_in_reach(a: Binary64, e: int)
    requires
        up_to(a, e),
        0 <= e < 128,
    ensures
        in_reach(a),
{
    lemma_pow2_strictly_increases((1074 + e) as nat, 1202);
}

/// The default timeline is a drift of thirty steps from a mean of 45 and a standard
/// deviation of 8 toward 48.5 and 5, with a jitter of 0.4, and settles at 50.
pub proof fn law_default_timeline(spec: TimelineSpec)
    requires
        call_ensures(TimelineSpec::default, (), spec),
    ensures
        number(spec.initial_mu) == (45 as real),
        number(spec.initial_sigma) == (8 as real),
        (2 as real) * number(spec.market_target_mu) == (97 as real),
        number(spec.market_target_sigma) == (5 as real),
        number(spec.truth_mu) == (50 as real),
        spec.steps == 30,
        abs(number(spec.jitter) - (2 as real) / (5 as real)) <= eps(),
{
    lemma_number_of_ratio(45);
    lemma_number_of_ratio(8);
    lemma_number_of_ratio(5);
    lemma_number_of_ratio(50);
    lemma_small();
    let k = pow2(1074);
    let h = pow2(1073);
    lemma_pow2_unfold(1074);
    assert(number(ratio(97, 2)) * (2 as real) == (97 as real)) by {
        reveal(ratio);
        lemma_held(97, 1073);
        assert(97 * k == (97 * h) * 2);
        lemma_rounded_scale(97 * h, 1, 2);
        let (x, y) = (h as real, k as real);
        let z = (97 as real) * x;
        assert(ratio(97, 2).value() == 97 * h);
        assert((z / y) * (2 as real) == (97 as real)) by (nonlinear_arith)
            requires
                z == (97 as real) * x,
                y == (2 as real) * x,
                x > (0 as real),
        ;
    }
    lemma_ratio_is_accurate(2, 5);
    let q = (2 as real) / (5 as real);
    assert(eps() * q + tiny() <= eps()) by {
        lemma_times_keeps_order(q, (1 as real) / (2 as real), eps());
        assert(eps() * ((1 as real) / (2 as real)) == eps() / (2 as real)) by (nonlinear_arith);
        lemma_tiny_is_less();
    }
}

/// Half a unit is less than half of `2^-53`.
proof fn lemma_tiny_is_less()
    ensures
        tiny() <= eps() / (2 as real),
{
    lemma2_to64_rest();
    lemma_pow2_le(53, 1074);
    lemma_small();
    let t = (2 * pow2(1074)) as real;
    let b = 9007199254740992 as real;
    assert((1 as real) / t <= ((1 as real) / b) / (2 as real)) by (nonlinear_arith)
        requires
            t >= (2 as real) * b,
            b == (9007199254740992 as real),
    ;
}

/// A small whole number, written as a fraction, is the number.
pub proof fn lemma_number_of_ratio(n: nat)
    requires
        n < 0x0020_0000_0000_0000,
    ensures
        number(ratio(n, 1)) == n as real,
{
    lemma_number_of_whole(n);
    reveal(ratio);
    reveal(whole);
}

} // verus!
