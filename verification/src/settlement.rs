//! What a settlement records, in terms of the outcome and what the strategy holds.

use vstd::prelude::*;
use crate::accuracy::{lemma_log_density_is_accurate, near_log_density, ordinary_point};
use crate::binary64::{
    difference, distance, greater, law_difference_with_itself, opposite, product, signed, sum,
    Binary64,
};
use crate::conduct::{functional, lemma_distance_order, variance_of};
use crate::gaussian::{law_log_density_falls_off, log_density, squared, two, two_pi};
use crate::market::{MarketEvent, MarketState, StrategyAction};
use crate::reals::{
    abs, eps, law_sum_is_accurate, lemma_number, lemma_number_order, lemma_small, number,
};
use crate::strategy::{answers, Ledger};

verus! {

/// Whether `log` is the log-density at `x` of the normal distribution with the mean and
/// the variance `at`, for a logarithm that `ln` gives for `2 * pi * variance`: the one
/// in real numbers, but for rounding, finite on all numbers of ordinary size, and no
/// finite number where the logarithm or the outcome is none or the variance is zero.
pub open spec fn is_log_density_at<L: Fn(Binary64) -> Binary64>(
    log: Binary64,
    x: Binary64,
    at: (Binary64, Binary64),
    ln: L,
) -> bool {
    exists|n: Binary64|
        {
            &&& #[trigger] answers(ln, product(two_pi(), at.1), n)
            &&& log.is_finite() && product(two(), at.1).is_finite() ==> near_log_density(log, x, at.0, at.1, n)
            &&& ordinary_point(x, at.0, at.1, n) ==> log.is_finite() && product(two(), at.1).is_finite()
            &&& n.is_nan() || x.is_nan() || at.0.is_nan() || at.1.is_nan() ==> log.is_nan()
            &&& !n.is_finite() || !x.is_finite() || !at.0.is_finite() || at.1.is_zero() ==> !log.is_finite()
                || at.1.is_infinite()
        }
}

/// Whether `p` is the density at `x` of the normal distribution with the mean and the
/// variance `at`: what `exp` gives for a log-density of it there.
pub open spec fn is_density_at<L: Fn(Binary64) -> Binary64, E: Fn(Binary64) -> Binary64>(
    p: Binary64,
    x: Binary64,
    at: (Binary64, Binary64),
    ln: L,
    exp: E,
) -> bool {
    exists|log: Binary64| #[trigger] answers(exp, log, p) && is_log_density_at(log, x, at, ln)
}

/// Whether `r` is `a - b`, but for one part in `2^53`.
pub open spec fn is_less(r: Binary64, a: Binary64, b: Binary64) -> bool {
    &&& a.is_nan() || b.is_nan() ==> r.is_nan()
    &&& a.is_finite() && b.is_finite() ==> !r.is_nan()
    &&& a.is_finite() && b.is_finite() && r.is_finite() ==> abs(number(r) - (number(a) - number(b))) <= eps() * abs(
        number(a) - number(b),
    )
}

/// A difference is less what is taken away.
proof fn lemma_is_less(a: Binary64, b: Binary64)
    ensures
        is_less(difference(a, b), a, b),
{
    reveal(sum);
    lemma_number(b);
    let c = opposite(b);
    crate::binary64::lemma_rounded_max(distance(a.value() + c.value()), 1);
    if a.is_finite() && b.is_finite() && difference(a, b).is_finite() {
        law_sum_is_accurate(a, c);
    }
}

/// The log-density is one at the point, for the logarithm that was given.
proof fn lemma_log_density_at<L: Fn(Binary64) -> Binary64>(x: Binary64, at: (Binary64, Binary64), ln: L, n: Binary64)
    requires
        answers(ln, product(two_pi(), at.1), n),
    ensures
        is_log_density_at(log_density(x, at.0, at.1, n), x, at, ln),
{
    lemma_log_density_is_accurate(x, at.0, at.1, n);
}

/// What comes of a settlement, taken apart.
proof fn lemma_settlement<L: Fn(Binary64) -> Binary64, E: Fn(Binary64) -> Binary64>(
    l: Ledger,
    state: MarketState,
    x: Binary64,
    ln: L,
    exp: E,
    next: Ledger,
    actions: Seq<StrategyAction>,
) -> (r: (Option<Binary64>, Option<(Binary64, Binary64)>))
    requires
        l.steps(state, MarketEvent::Settle { x_star: x }, ln, exp, next, actions),
    ensures
        actions.len() == 0,
        l.is_score(x, ln, r.0),
        l.are_densities(x, ln, exp, r.1),
        next == l.after_settlement(r.0, r.1),
{
    choose|score: Option<Binary64>, densities: Option<(Binary64, Binary64)>|
        {
            &&& #[trigger] l.is_score(x, ln, score)
            &&& #[trigger] l.are_densities(x, ln, exp, densities)
            &&& next == l.after_settlement(score, densities)
        }
}

/// A settlement leaves the decisions, the market and the position as they are, counts
/// as one event, and asks for nothing.
pub proof fn law_settlement_leaves_the_position<L: Fn(Binary64) -> Binary64, E: Fn(Binary64) -> Binary64>(
    l: Ledger,
    state: MarketState,
    x: Binary64,
    ln: L,
    exp: E,
    next: Ledger,
    actions: Seq<StrategyAction>,
)
    requires
        l.steps(state, MarketEvent::Settle { x_star: x }, ln, exp, next, actions),
    ensures
        actions.len() == 0,
        next.event_counter == l.event_counter + 1,
        next.params == l.params,
        next.decisions == l.decisions,
        next.last_market == l.last_market,
        next.f_orig == l.f_orig,
        next.f_eff == l.f_eff,
{
    let r = lemma_settlement(l, state, x, ln, exp, next, actions);
}

/// The log-score at a settlement is the log-density of the belief at the outcome less
/// that of the last market at the same outcome, wherever it lies. Without a trade
/// event before there is none.
pub proof fn law_score_compares_at_the_outcome<L: Fn(Binary64) -> Binary64, E: Fn(Binary64) -> Binary64>(
    l: Ledger,
    state: MarketState,
    x: Binary64,
    ln: L,
    exp: E,
    next: Ledger,
    actions: Seq<StrategyAction>,
)
    requires
        l.steps(state, MarketEvent::Settle { x_star: x }, ln, exp, next, actions),
    ensures
        l.last_market is None ==> next.realized_log_score == l.realized_log_score,
        l.last_market matches Some(market) ==> exists|b: Binary64, m: Binary64|
            {
                &&& #[trigger] is_log_density_at(b, x, (l.params.belief_mu, variance_of(l.params)), ln)
                &&& #[trigger] is_log_density_at(m, x, market, ln)
                &&& next.realized_log_score matches Some(score) && is_less(score, b, m)
            },
{
    let r = lemma_settlement(l, state, x, ln, exp, next, actions);
    if let Some(market) = l.last_market {
        let belief = (l.params.belief_mu, variance_of(l.params));
        let (b, m) = lemma_score_logs(l, x, ln, r.0, market);
        lemma_log_density_at(x, belief, ln, b);
        lemma_log_density_at(x, market, ln, m);
        let (p, q) = (log_density(x, belief.0, belief.1, b), log_density(x, market.0, market.1, m));
        lemma_is_less(p, q);
        assert(is_log_density_at(p, x, belief, ln) && is_log_density_at(q, x, market, ln));
    }
}

/// The logarithms that a log-score is computed by.
proof fn lemma_score_logs<L: Fn(Binary64) -> Binary64>(
    l: Ledger,
    x: Binary64,
    ln: L,
    score: Option<Binary64>,
    market: (Binary64, Binary64),
) -> (r: (Binary64, Binary64))
    requires
        l.is_score(x, ln, score),
        l.last_market == Some(market),
    ensures
        ({
            let belief = (l.params.belief_mu, variance_of(l.params));
            &&& answers(ln, product(two_pi(), belief.1), r.0)
            &&& answers(ln, product(two_pi(), market.1), r.1)
            &&& score == Some(
                difference(
                    log_density(x, belief.0, belief.1, r.0),
                    log_density(x, market.0, market.1, r.1),
                ),
            )
        }),
{
    choose|b: Binary64, m: Binary64|
        {
            &&& #[trigger] answers(ln, product(two_pi(), variance_of(l.params)), b)
            &&& #[trigger] answers(ln, product(two_pi(), market.1), m)
            &&& score == Some(
                difference(
                    log_density(x, l.params.belief_mu, variance_of(l.params), b),
                    log_density(x, market.0, market.1, m),
                ),
            )
        }
}

/// Where the last market is at the belief, there is nothing to score: the log-score is
/// zero, or no number where the log-density is infinite.
pub proof fn law_no_score_at_the_belief<L: Fn(Binary64) -> Binary64, E: Fn(Binary64) -> Binary64>(
    l: Ledger,
    state: MarketState,
    x: Binary64,
    ln: L,
    exp: E,
    next: Ledger,
    actions: Seq<StrategyAction>,
)
    requires
        l.steps(state, MarketEvent::Settle { x_star: x }, ln, exp, next, actions),
        functional(ln),
        l.last_market == Some((l.params.belief_mu, variance_of(l.params))),
    ensures
        next.realized_log_score matches Some(score) && (score.is_zero() || score.is_nan()),
{
    let r = lemma_settlement(l, state, x, ln, exp, next, actions);
    let belief = (l.params.belief_mu, variance_of(l.params));
    let (b, m) = lemma_score_logs(l, x, ln, r.0, belief);
    let p = log_density(x, belief.0, belief.1, b);
    if p.is_finite() {
        law_difference_with_itself(p);
    } else {
        reveal(sum);
    }
}

/// Exchanging the belief and the last market changes the sign of the log-score.
pub proof fn law_score_changes_sign<L: Fn(Binary64) -> Binary64, E: Fn(Binary64) -> Binary64>(
    l: Ledger,
    other: Ledger,
    state: MarketState,
    x: Binary64,
    ln: L,
    exp: E,
    next: Ledger,
    other_next: Ledger,
    actions: Seq<StrategyAction>,
    other_actions: Seq<StrategyAction>,
)
    requires
        l.steps(state, MarketEvent::Settle { x_star: x }, ln, exp, next, actions),
        other.steps(state, MarketEvent::Settle { x_star: x }, ln, exp, other_next, other_actions),
        functional(ln),
        l.last_market == Some((other.params.belief_mu, variance_of(other.params))),
        other.last_market == Some((l.params.belief_mu, variance_of(l.params))),
    ensures
        next.realized_log_score matches Some(a) && other_next.realized_log_score matches Some(b) && (a.is_nan()
            <==> b.is_nan()) && (!a.is_nan() ==> number(b) == -number(a)),
{
    let r = lemma_settlement(l, state, x, ln, exp, next, actions);
    let s = lemma_settlement(other, state, x, ln, exp, other_next, other_actions);
    let market = l.last_market->0;
    let belief = other.last_market->0;
    let (b1, m1) = lemma_score_logs(l, x, ln, r.0, market);
    let (b2, m2) = lemma_score_logs(other, x, ln, s.0, belief);
    assert(b1 == m2 && m1 == b2);
    let (p, q) = (log_density(x, belief.0, belief.1, b1), log_density(x, market.0, market.1, m1));
    lemma_difference_turned(p, q);
}

/// Turning a difference round changes its sign.
proof fn lemma_difference_turned(p: Binary64, q: Binary64)
    ensures
        difference(p, q).is_nan() <==> difference(q, p).is_nan(),
        !difference(p, q).is_nan() ==> number(difference(q, p)) == -number(difference(p, q)),
{
    reveal(sum);
    let d = difference(p, q);
    lemma_number(d);
    assert(opposite(p).value() == -p.value() && opposite(q).value() == -q.value());
    let v = p.value() - q.value();
    crate::binary64::lemma_rounded_max(distance(v), 1);
    crate::rounding::lemma_rounded_zero(1);
    assert(distance(-v) == distance(v));
    if !d.is_nan() {
        assert(difference(q, p).value() == -d.value());
    }
    lemma_small();
    let (x, k) = (d.value() as real, vstd::arithmetic::power2::pow2(1074) as real);
    assert((-x) / k == -(x / k)) by (nonlinear_arith)
        requires
            k > (0 as real),
    ;
}

/// The further an outcome is from the belief, the lower the log-score: of two outcomes
/// equally far from the last market, the one further from the belief, on whichever
/// side, has no higher score.
pub proof fn law_score_falls_off<L: Fn(Binary64) -> Binary64, E: Fn(Binary64) -> Binary64>(
    l: Ledger,
    state: MarketState,
    near: Binary64,
    far: Binary64,
    ln: L,
    exp: E,
    next_near: Ledger,
    next_far: Ledger,
    actions_near: Seq<StrategyAction>,
    actions_far: Seq<StrategyAction>,
    market: (Binary64, Binary64),
)
    requires
        l.steps(state, MarketEvent::Settle { x_star: near }, ln, exp, next_near, actions_near),
        l.steps(state, MarketEvent::Settle { x_star: far }, ln, exp, next_far, actions_far),
        functional(ln),
        l.last_market == Some(market),
        near.is_finite() && far.is_finite() && l.params.belief_mu.is_finite() && market.0.is_finite(),
        greater(variance_of(l.params), signed(false, 0)),
        abs(number(near) - number(market.0)) == abs(number(far) - number(market.0)),
        abs(number(near) - number(l.params.belief_mu)) <= abs(number(far) - number(l.params.belief_mu)),
    ensures
        next_near.realized_log_score matches Some(a) && next_far.realized_log_score matches Some(b) && (!a.is_nan()
            && !b.is_nan() ==> number(b) <= number(a)),
{
    let r = lemma_settlement(l, state, near, ln, exp, next_near, actions_near);
    let s = lemma_settlement(l, state, far, ln, exp, next_far, actions_far);
    let belief = (l.params.belief_mu, variance_of(l.params));
    let (b1, m1) = lemma_score_logs(l, near, ln, r.0, market);
    let (b2, m2) = lemma_score_logs(l, far, ln, s.0, market);
    assert(b1 == b2 && m1 == m2);
    lemma_distance_order(near, far, belief.0);
    law_log_density_falls_off(near, far, belief.0, belief.1, b1);
    lemma_mirrored(near, far, market, m1);
    let q = log_density(near, market.0, market.1, m1);
    let (p1, p2) = (log_density(near, belief.0, belief.1, b1), log_density(far, belief.0, belief.1, b1));
    crate::binary64::law_sum_is_monotonic(p2, p1, opposite(q));
    let (a, b) = (difference(p1, q), difference(p2, q));
    lemma_number_order(a, b);
    reveal(greater);
}

/// The log-density is the same on both sides of the mean.
proof fn lemma_mirrored(x: Binary64, y: Binary64, at: (Binary64, Binary64), n: Binary64)
    requires
        x.is_finite(),
        y.is_finite(),
        at.0.is_finite(),
        abs(number(x) - number(at.0)) == abs(number(y) - number(at.0)),
    ensures
        log_density(x, at.0, at.1, n) == log_density(y, at.0, at.1, n),
{
    lemma_distance_order(x, y, at.0);
    lemma_distance_order(y, x, at.0);
    let (g, h) = (difference(x, at.0), difference(y, at.0));
    crate::binary64::law_difference_grows(x, y, at.0);
    crate::binary64::law_difference_grows(y, x, at.0);
    assert(squared(g) == squared(h)) by {
        reveal(product);
    }
}

/// A settlement with a position records the densities of both endpoints at the outcome,
/// wherever it lies, and their difference as the value. Without a position it records
/// neither.
pub proof fn law_value_compares_at_the_outcome<L: Fn(Binary64) -> Binary64, E: Fn(Binary64) -> Binary64>(
    l: Ledger,
    state: MarketState,
    x: Binary64,
    ln: L,
    exp: E,
    next: Ledger,
    actions: Seq<StrategyAction>,
)
    requires
        l.steps(state, MarketEvent::Settle { x_star: x }, ln, exp, next, actions),
    ensures
        l.f_orig is None || l.f_eff is None ==> next.deadeye_payout == l.deadeye_payout && next.payout_breakdown
            == l.payout_breakdown,
        l.f_orig is Some && l.f_eff is Some ==> {
            &&& next.payout_breakdown matches Some((p, q)) && {
                &&& is_density_at(p, x, l.f_orig->0, ln, exp)
                &&& is_density_at(q, x, l.f_eff->0, ln, exp)
                &&& next.deadeye_payout matches Some(value) && is_less(value, q, p)
            }
        },
{
    let r = lemma_settlement(l, state, x, ln, exp, next, actions);
    if l.f_orig is Some && l.f_eff is Some {
        let (p, q) = r.1->0;
        let u = lemma_density_logs(l, x, ln, exp, r.1, true);
        let v = lemma_density_logs(l, x, ln, exp, r.1, false);
        lemma_log_density_at(x, l.f_orig->0, ln, u);
        lemma_log_density_at(x, l.f_eff->0, ln, v);
        lemma_is_less(q, p);
    }
}

/// The logarithm that the density at one of the endpoints is computed by.
proof fn lemma_density_logs<L: Fn(Binary64) -> Binary64, E: Fn(Binary64) -> Binary64>(
    l: Ledger,
    x: Binary64,
    ln: L,
    exp: E,
    densities: Option<(Binary64, Binary64)>,
    first: bool,
) -> (n: Binary64)
    requires
        l.are_densities(x, ln, exp, densities),
        l.f_orig is Some,
        l.f_eff is Some,
    ensures
        ({
            let at = if first {
                l.f_orig->0
            } else {
                l.f_eff->0
            };
            let p = if first {
                (densities->0).0
            } else {
                (densities->0).1
            };
            &&& densities is Some
            &&& answers(ln, product(two_pi(), at.1), n)
            &&& answers(exp, log_density(x, at.0, at.1, n), p)
        }),
{
    let at = if first {
        l.f_orig->0
    } else {
        l.f_eff->0
    };
    let p = if first {
        (densities->0).0
    } else {
        (densities->0).1
    };
    choose|n: Binary64| #[trigger]
        answers(ln, product(two_pi(), at.1), n) && answers(exp, log_density(x, at.0, at.1, n), p)
}

/// Outcomes that are equally far from where a position begins get the same first
/// density, on either side; so do the second ones, by where it ends.
pub proof fn law_densities_are_mirrored<L: Fn(Binary64) -> Binary64, E: Fn(Binary64) -> Binary64>(
    l: Ledger,
    state: MarketState,
    x: Binary64,
    y: Binary64,
    ln: L,
    exp: E,
    next_x: Ledger,
    next_y: Ledger,
    actions_x: Seq<StrategyAction>,
    actions_y: Seq<StrategyAction>,
)
    requires
        l.steps(state, MarketEvent::Settle { x_star: x }, ln, exp, next_x, actions_x),
        l.steps(state, MarketEvent::Settle { x_star: y }, ln, exp, next_y, actions_y),
        functional(ln),
        functional(exp),
        l.f_orig is Some,
        l.f_eff is Some,
        x.is_finite() && y.is_finite() && (l.f_orig->0).0.is_finite() && (l.f_eff->0).0.is_finite(),
    ensures
        next_x.payout_breakdown is Some,
        next_y.payout_breakdown is Some,
        abs(number(x) - number((l.f_orig->0).0)) == abs(number(y) - number((l.f_orig->0).0))
            ==> (next_x.payout_breakdown->0).0 == (next_y.payout_breakdown->0).0,
        abs(number(x) - number((l.f_eff->0).0)) == abs(number(y) - number((l.f_eff->0).0))
            ==> (next_x.payout_breakdown->0).1 == (next_y.payout_breakdown->0).1,
{
    let r = lemma_settlement(l, state, x, ln, exp, next_x, actions_x);
    let s = lemma_settlement(l, state, y, ln, exp, next_y, actions_y);
    let u1 = lemma_density_logs(l, x, ln, exp, r.1, true);
    let v1 = lemma_density_logs(l, x, ln, exp, r.1, false);
    let u2 = lemma_density_logs(l, y, ln, exp, s.1, true);
    let v2 = lemma_density_logs(l, y, ln, exp, s.1, false);
    assert(u1 == u2 && v1 == v2);
    if abs(number(x) - number((l.f_orig->0).0)) == abs(number(y) - number((l.f_orig->0).0)) {
        lemma_mirrored(x, y, l.f_orig->0, u1);
    }
    if abs(number(x) - number((l.f_eff->0).0)) == abs(number(y) - number((l.f_eff->0).0)) {
        lemma_mirrored(x, y, l.f_eff->0, v1);
    }
}

/// The further an outcome is from where a position begins, the lower the first
/// density, where `exp` keeps the order; and so for the second one, by where it ends.
pub proof fn law_densities_fall_off<L: Fn(Binary64) -> Binary64, E: Fn(Binary64) -> Binary64>(
    l: Ledger,
    state: MarketState,
    near: Binary64,
    far: Binary64,
    ln: L,
    exp: E,
    next_near: Ledger,
    next_far: Ledger,
    actions_near: Seq<StrategyAction>,
    actions_far: Seq<StrategyAction>,
)
    requires
        l.steps(state, MarketEvent::Settle { x_star: near }, ln, exp, next_near, actions_near),
        l.steps(state, MarketEvent::Settle { x_star: far }, ln, exp, next_far, actions_far),
        functional(ln),
        forall|u: Binary64, v: Binary64, p: Binary64, q: Binary64| #[trigger]
            answers(exp, u, p) && #[trigger] answers(exp, v, q) && !greater(u, v) ==> !greater(p, q),
        l.f_orig is Some,
        l.f_eff is Some,
        near.is_finite() && far.is_finite() && (l.f_orig->0).0.is_finite() && (l.f_eff->0).0.is_finite(),
        greater((l.f_orig->0).1, signed(false, 0)),
        greater((l.f_eff->0).1, signed(false, 0)),
    ensures
        next_near.payout_breakdown is Some,
        next_far.payout_breakdown is Some,
        abs(number(near) - number((l.f_orig->0).0)) <= abs(number(far) - number((l.f_orig->0).0)) ==> !greater(
            (next_far.payout_breakdown->0).0,
            (next_near.payout_breakdown->0).0,
        ),
        abs(number(near) - number((l.f_eff->0).0)) <= abs(number(far) - number((l.f_eff->0).0)) ==> !greater(
            (next_far.payout_breakdown->0).1,
            (next_near.payout_breakdown->0).1,
        ),
{
    let r = lemma_settlement(l, state, near, ln, exp, next_near, actions_near);
    let s = lemma_settlement(l, state, far, ln, exp, next_far, actions_far);
    let u1 = lemma_density_logs(l, near, ln, exp, r.1, true);
    let v1 = lemma_density_logs(l, near, ln, exp, r.1, false);
    let u2 = lemma_density_logs(l, far, ln, exp, s.1, true);
    let v2 = lemma_density_logs(l, far, ln, exp, s.1, false);
    assert(u1 == u2 && v1 == v2);
    let (o, e) = (l.f_orig->0, l.f_eff->0);
    lemma_distance_order(near, far, o.0);
    lemma_distance_order(near, far, e.0);
    if abs(number(near) - number(o.0)) <= abs(number(far) - number(o.0)) {
        law_log_density_falls_off(near, far, o.0, o.1, u1);
    }
    if abs(number(near) - number(e.0)) <= abs(number(far) - number(e.0)) {
        law_log_density_falls_off(near, far, e.0, e.1, v1);
    }
}

/// What `on_settlement` records: the score and the densities that it is given, and the
/// second density less the first as the value; what it is not given stays.
pub proof fn law_settlements_are_recorded(
    l: Ledger,
    score: Option<Binary64>,
    densities: Option<(Binary64, Binary64)>,
)
    ensures
        ({
            let next = l.after_settlement(score, densities);
            &&& score is Some ==> next.realized_log_score == score
            &&& score is None ==> next.realized_log_score == l.realized_log_score
            &&& densities matches Some((p, q)) ==> next.payout_breakdown == densities && (
            next.deadeye_payout matches Some(value) && is_less(value, q, p))
            &&& densities is None ==> next.payout_breakdown == l.payout_breakdown && next.deadeye_payout
                == l.deadeye_payout
            &&& next.event_counter == l.event_counter + 1
            &&& next.params == l.params && next.decisions == l.decisions && next.last_market == l.last_market
            &&& next.f_orig == l.f_orig && next.f_eff == l.f_eff
        }),
{
    if let Some((p, q)) = densities {
        lemma_is_less(q, p);
    }
}

} // verus!
