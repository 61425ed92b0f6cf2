//! What a strategy does at a single event, in terms of what it sees and holds.

use vstd::prelude::*;
use vstd::arithmetic::power2::*;
use crate::accuracy::{lemma_divergence_is_accurate, near_divergence, ordinary_pair};
use crate::binary64::{
    difference, distance, greater, product, quotient, same, signed, sum, Binary64,
};
use crate::conversions::{
    cuts, has_root, in_reach, lemma_approximation_is_accurate, lemma_normal_has_its_moments,
    lemma_square_has_no_sign,
};
use crate::gaussian::{
    above_the_tangent, divergence, half, law_divergence_grows_with_the_gap,
    law_divergence_is_not_negative, law_no_divergence_from_itself, two,
};
use crate::market::{
    law_moments_are_read_back, MarketEvent, MarketState, NormalDistribution, NormalError,
    SimDistribution, StrategyAction,
};
use crate::reals::{
    abs, lemma_finite_product, lemma_number, lemma_number_order, lemma_product_up_to, lemma_small,
    lemma_times_keeps_order, number, up_to,
};
use crate::roots::{is_root, lemma_square_root_is_accurate};
use crate::sq128::{approximation, fits_fixed_point};
use crate::strategy::{answers, BayesianEdgeStrategy, EdgeParams, Ledger};

verus! {

/// The variance of a belief: its standard deviation times itself.
pub open spec fn variance_of(params: EdgeParams) -> Binary64 {
    product(params.belief_sigma, params.belief_sigma)
}

/// Whether a position ends at the belief: both moments are the same numbers.
pub open spec fn ends_at_the_belief(l: Ledger) -> bool {
    match l.f_eff {
        None => false,
        Some((mu, var)) => {
            &&& !mu.is_nan() && !l.params.belief_mu.is_nan() && number(mu) == number(l.params.belief_mu)
            &&& !var.is_nan() && !variance_of(l.params).is_nan() && number(var) == number(variance_of(l.params))
        },
    }
}

/// Whether there is an edge: the divergence is a number above the threshold.
pub open spec fn is_edge(kl: Binary64, threshold: Binary64) -> bool {
    !kl.is_nan() && !threshold.is_nan() && number(kl) > number(threshold)
}

/// Whether `candidate` is the belief in fixed point. Where a moment has no bits below
/// `2^-128`, it reads back as it was.
pub open spec fn is_the_belief(candidate: NormalDistribution, params: EdgeParams) -> bool {
    let (mu, var) = (params.belief_mu, variance_of(params));
    &&& cuts(candidate.mean, mu)
    &&& cuts(candidate.variance, var)
    &&& has_root(candidate)
    &&& fits_fixed_point(mu) && fits_fixed_point(var) ==> {
        &&& number(approximation(candidate.mean)) == number(mu)
        &&& number(approximation(candidate.variance)) == number(var)
        &&& !mu.is_zero() ==> approximation(candidate.mean) == mu
        &&& !var.is_zero() ==> approximation(candidate.variance) == var
    }
}

/// Whether `next` and `actions` are right after an event that is no settlement, in a
/// normal market at `(mu, var)` from which the belief diverges by `kl`.
pub open spec fn takes_quote(
    l: Ledger,
    event: MarketEvent,
    mu: Binary64,
    var: Binary64,
    kl: Binary64,
    next: Ledger,
    actions: Seq<StrategyAction>,
) -> bool {
    let n = l.decisions.len() as int;
    let d = next.decisions[n];
    // What has nothing to do with the quote stays.
    &&& next.params == l.params
    &&& next.realized_log_score == l.realized_log_score
    &&& next.deadeye_payout == l.deadeye_payout
    &&& next.payout_breakdown == l.payout_breakdown
    &&& next.event_counter == l.event_counter + 1
    // One decision is added.
    &&& next.decisions.len() == n + 1
    &&& forall|i: int| 0 <= i < n ==> #[trigger] next.decisions[i] == l.decisions[i]
    &&& l.event_counter <= usize::MAX ==> d.event_idx == l.event_counter
    &&& d.market_mu == mu
    &&& is_root(d.market_sigma, var)
    &&& d.kl == kl
    &&& d.traded <==> event is Trade && is_edge(kl, l.params.edge_threshold) && !ends_at_the_belief(l)
    // A trade event is what counts as the market.
    &&& event is Trade ==> next.last_market == Some((mu, var))
    &&& !(event is Trade) ==> next.last_market == l.last_market
    // The strategy trades where the belief is in reach, and its position follows.
    &&& actions.len() == 1 || actions.len() == 0
    &&& actions.len() == 1 <==> d.traded && in_reach(l.params.belief_mu) && in_reach(variance_of(l.params))
    &&& actions.len() == 1 ==> {
        &&& actions[0] matches StrategyAction::Trade { candidate } && is_the_belief(candidate, l.params)
        &&& next.f_eff == Some((l.params.belief_mu, variance_of(l.params)))
        &&& next.f_orig == if l.f_orig is None {
            Some((mu, var))
        } else {
            l.f_orig
        }
    }
    &&& actions.len() == 0 ==> next.f_orig == l.f_orig && next.f_eff == l.f_eff
}

/// A belief in fixed point is the belief.
proof fn lemma_candidate(params: EdgeParams)
    ensures
        params.candidate() is Ok <==> in_reach(params.belief_mu) && in_reach(variance_of(params)),
        params.candidate() matches Ok(candidate) ==> is_the_belief(candidate, params),
{
    let (mu, var) = (params.belief_mu, variance_of(params));
    lemma_normal_has_its_moments(mu, var);
    lemma_square_has_no_sign(params.belief_sigma);
    lemma_pow2_pos(946);
    if let Ok(candidate) = params.candidate() {
        if fits_fixed_point(mu) && fits_fixed_point(var) {
            law_moments_are_read_back(mu, var);
            let zero = signed(false, 0);
            lemma_number(zero);
            lemma_number(mu);
            lemma_number(var);
        }
    }
}

/// The comparisons of the rule, in real numbers.
proof fn lemma_rule(l: Ledger, kl: Binary64)
    ensures
        greater(kl, l.params.edge_threshold) <==> is_edge(kl, l.params.edge_threshold),
        l.belief_moved() <==> !ends_at_the_belief(l),
{
    reveal(greater);
    reveal(same);
    lemma_number_order(l.params.edge_threshold, kl);
    if let Some((mu, var)) = l.f_eff {
        lemma_number_order(mu, l.params.belief_mu);
        lemma_number_order(var, variance_of(l.params));
    }
}

/// What `on_quote` does.
pub proof fn law_quotes_are_taken(l: Ledger, event: MarketEvent, mu: Binary64, var: Binary64, kl: Binary64)
    ensures
        takes_quote(l, event, mu, var, kl, l.after_quote(event, mu, var, kl), l.asks(event, kl)),
{
    lemma_candidate(l.params);
    lemma_rule(l, kl);
    lemma_square_root_is_accurate(var);
}

/// At an event that is no settlement, in a normal market, the strategy reads the mean
/// and the variance of the market, and takes the quote by the divergence of its
/// belief from it: the one in real numbers, but for rounding, with the logarithm of
/// the belief's own variance and that of the market's own variance, whatever `ln`
/// gives for them. It is no finite number where they are none or where the variance of
/// the market is zero.
pub proof fn law_edge_is_the_divergence<L: Fn(Binary64) -> Binary64, E: Fn(Binary64) -> Binary64>(
    l: Ledger,
    state: MarketState,
    event: MarketEvent,
    ln: L,
    exp: E,
    next: Ledger,
    actions: Seq<StrategyAction>,
    market: NormalDistribution,
)
    requires
        l.steps(state, event, ln, exp, next, actions),
        !(event is Settle),
        state.distribution == SimDistribution::Normal(market),
    ensures
        ({
            let (mu, var) = (approximation(market.mean), approximation(market.variance));
            let kl = next.decisions.last().kl;
            let (belief_mu, belief_var) = (l.params.belief_mu, variance_of(l.params));
            &&& takes_quote(l, event, mu, var, kl, next, actions)
            &&& exists|b: Binary64, m: Binary64|
                {
                    &&& #[trigger] answers(ln, belief_var, b)
                    &&& #[trigger] answers(ln, var, m)
                    &&& kl.is_finite() ==> near_divergence(kl, belief_mu, belief_var, mu, var, b, m)
                    &&& ordinary_pair(belief_mu, belief_var, mu, var, b, m) ==> kl.is_finite()
                    &&& b.is_nan() || m.is_nan() ==> kl.is_nan()
                    &&& !b.is_finite() || !m.is_finite() || var.is_zero() ==> !kl.is_finite()
                }
        }),
{
    let (mu, var) = (approximation(market.mean), approximation(market.variance));
    let (b, m) = lemma_quote_of_event(l, state, event, ln, exp, next, actions, market);
    let (belief_mu, belief_var) = (l.params.belief_mu, variance_of(l.params));
    let kl = divergence(belief_mu, belief_var, mu, var, b, m);
    law_quotes_are_taken(l, event, mu, var, kl);
    lemma_square_has_no_sign(l.params.belief_sigma);
    lemma_number(belief_var);
    lemma_divergence_is_accurate(belief_mu, belief_var, mu, var, b, m);
    lemma_approximation_is_accurate(market.variance);
    lemma_twice_up_to(var);
}

/// Twice a variance that is read from the market is finite.
proof fn lemma_twice_up_to(var: Binary64)
    requires
        up_to(var, 131),
    ensures
        product(two(), var).is_finite(),
{
    crate::gaussian::lemma_constants();
    lemma_pow2_unfold(1075);
    lemma_product_up_to(two(), var, 1, 131);
}

/// The logarithms by which an event that is no settlement is taken.
proof fn lemma_quote_of_event<L: Fn(Binary64) -> Binary64, E: Fn(Binary64) -> Binary64>(
    l: Ledger,
    state: MarketState,
    event: MarketEvent,
    ln: L,
    exp: E,
    next: Ledger,
    actions: Seq<StrategyAction>,
    market: NormalDistribution,
) -> (r: (Binary64, Binary64))
    requires
        l.steps(state, event, ln, exp, next, actions),
        !(event is Settle),
        state.distribution == SimDistribution::Normal(market),
    ensures
        ({
            let (mu, var) = (approximation(market.mean), approximation(market.variance));
            let kl = divergence(l.params.belief_mu, variance_of(l.params), mu, var, r.0, r.1);
            &&& answers(ln, variance_of(l.params), r.0)
            &&& answers(ln, var, r.1)
            &&& next == l.after_quote(event, mu, var, kl)
            &&& actions == l.asks(event, kl)
        }),
{
    let mu = approximation(market.mean);
    let var = approximation(market.variance);
    choose|b: Binary64, m: Binary64|
        {
            let kl = divergence(l.params.belief_mu, l.params.belief_var(), mu, var, b, m);
            &&& #[trigger] answers(ln, l.params.belief_var(), b)
            &&& #[trigger] answers(ln, var, m)
            &&& next == l.after_quote(event, mu, var, kl)
            &&& actions == l.asks(event, kl)
        }
}

/// Whether `f` always gives the same for the same.
pub open spec fn functional<F: Fn(Binary64) -> Binary64>(f: F) -> bool {
    forall|x: Binary64, a: Binary64, b: Binary64| #[trigger] answers(f, x, a) && #[trigger] answers(f, x, b) ==> a == b
}

/// There is no edge in a market that is at the belief, whatever the size of its
/// variance: the divergence is zero, and with a threshold that is not below zero the
/// strategy does nothing.
pub proof fn law_no_edge_at_the_belief<L: Fn(Binary64) -> Binary64, E: Fn(Binary64) -> Binary64>(
    l: Ledger,
    state: MarketState,
    event: MarketEvent,
    ln: L,
    exp: E,
    next: Ledger,
    actions: Seq<StrategyAction>,
    market: NormalDistribution,
)
    requires
        l.steps(state, event, ln, exp, next, actions),
        !(event is Settle),
        state.distribution == SimDistribution::Normal(market),
        functional(ln),
        forall|v: Binary64, a: Binary64| #[trigger] answers(ln, v, a) && v.is_finite() && number(v) > (0 as real)
            ==> a.is_finite(),
        approximation(market.mean) == l.params.belief_mu,
        approximation(market.variance) == variance_of(l.params),
        l.params.belief_mu.is_finite(),
        variance_of(l.params).is_finite(),
        number(variance_of(l.params)) > (0 as real),
        product(two(), variance_of(l.params)).is_finite(),
    ensures
        next.decisions.last().kl.is_zero(),
        number(l.params.edge_threshold) >= (0 as real) ==> actions.len() == 0 && !next.decisions.last().traded,
{
    let (mu, var) = (l.params.belief_mu, variance_of(l.params));
    let (b, m) = lemma_quote_of_event(l, state, event, ln, exp, next, actions, market);
    let kl = divergence(mu, var, mu, var, b, m);
    lemma_number(var);
    reveal(greater);
    law_no_divergence_from_itself(mu, var, b);
    lemma_number(kl);
    law_quotes_are_taken(l, event, mu, var, kl);
}

/// The edge that is recorded is never below zero, but for rounding, where `ln` keeps
/// above the tangent of the logarithm: where the two variances are no more than a
/// factor of two apart it is not below zero at all, and otherwise not below what is
/// lost when `q = belief variance / (2 * market variance)` is taken from one half and
/// added again.
pub proof fn law_edge_is_not_negative<L: Fn(Binary64) -> Binary64, E: Fn(Binary64) -> Binary64>(
    l: Ledger,
    state: MarketState,
    event: MarketEvent,
    ln: L,
    exp: E,
    next: Ledger,
    actions: Seq<StrategyAction>,
    market: NormalDistribution,
)
    requires
        l.steps(state, event, ln, exp, next, actions),
        !(event is Settle),
        state.distribution == SimDistribution::Normal(market),
        forall|v: Binary64, w: Binary64, a: Binary64, b: Binary64| #[trigger]
            answers(ln, v, a) && #[trigger] answers(ln, w, b) && number(v) > (0 as real) && number(w) > (0 as real)
                ==> difference(b, a).is_finite() && above_the_tangent(v, w, a, b),
        l.params.belief_mu.is_finite(),
        approximation(market.mean).is_finite(),
        variance_of(l.params).is_finite(),
        number(variance_of(l.params)) > (0 as real),
        number(approximation(market.variance)) > (0 as real),
        product(two(), approximation(market.variance)).is_finite(),
        quotient(variance_of(l.params), product(two(), approximation(market.variance))).is_finite(),
    ensures
        ({
            let kl = next.decisions.last().kl;
            let q = quotient(variance_of(l.params), product(two(), approximation(market.variance)));
            &&& !kl.is_nan()
            &&& number(kl) >= number(difference(sum(difference(half(), q), q), half())) || difference(
                sum(difference(half(), q), q),
                half(),
            ).is_nan()
            &&& (1 as real) <= (4 as real) * number(q) && number(q) <= (1 as real) ==> number(kl) >= (0 as real)
        }),
{
    let (mu, var) = (approximation(market.mean), approximation(market.variance));
    let (b, m) = lemma_quote_of_event(l, state, event, ln, exp, next, actions, market);
    let belief_var = variance_of(l.params);
    let kl = divergence(l.params.belief_mu, belief_var, mu, var, b, m);
    lemma_number(belief_var);
    lemma_number(var);
    lemma_finite_product(two(), var);
    assert(greater(belief_var, signed(false, 0)) && greater(var, signed(false, 0))) by {
        reveal(greater);
    }
    law_divergence_is_not_negative(l.params.belief_mu, belief_var, mu, var, b, m);
    let q = quotient(belief_var, product(two(), var));
    let slack = difference(sum(difference(half(), q), q), half());
    lemma_number_order(kl, slack);
    reveal(greater);
    if (1 as real) <= (4 as real) * number(q) && number(q) <= (1 as real) {
        lemma_between_quarter_and_one(q);
        lemma_number(kl);
    }
}

/// The bits of the numbers between one quarter and one.
proof fn lemma_between_quarter_and_one(q: Binary64)
    requires
        q.is_finite(),
        (1 as real) <= (4 as real) * number(q),
        number(q) <= (1 as real),
    ensures
        0x3fd0_0000_0000_0000 <= q.bits <= 0x3ff0_0000_0000_0000,
{
    lemma_small();
    lemma_number(q);
    let (x, k) = (q.value() as real, pow2(1074) as real);
    let n = number(q);
    lemma_times_keeps_order((1 as real), (4 as real) * n, k);
    lemma_times_keeps_order(n, (1 as real), k);
    assert(((4 as real) * n) * k == (4 as real) * (n * k)) by (nonlinear_arith);
    assert(pow2(1074) <= 4 * q.value() && q.value() <= pow2(1074));
    lemma_pow2_pos(1074);
    let m = q.magnitude();
    lemma2_to64_rest();
    lemma_pow2_adds(52, 1020);
    lemma_pow2_adds(52, 1022);
    lemma_pow2_unfold(1074);
    lemma_pow2_unfold(1073);
    assert(crate::rounding::units(0x3fd0_0000_0000_0000) == pow2(1072));
    assert(crate::rounding::units(0x3ff0_0000_0000_0000) == pow2(1074));
    if m < 0x3fd0_0000_0000_0000 {
        crate::rounding::lemma_units_increase(m, 0x3fd0_0000_0000_0000);
    }
    if m > 0x3ff0_0000_0000_0000 {
        crate::rounding::lemma_units_increase(0x3ff0_0000_0000_0000, m);
    }
}

/// The further a market of a given variance is from the belief, the greater the edge:
/// of two markets that one strategy may see, the one further off gives no lower
/// divergence.
pub proof fn law_edge_grows_with_the_gap<L: Fn(Binary64) -> Binary64, E: Fn(Binary64) -> Binary64>(
    l: Ledger,
    near: MarketState,
    far: MarketState,
    event: MarketEvent,
    ln: L,
    exp: E,
    next_near: Ledger,
    next_far: Ledger,
    actions_near: Seq<StrategyAction>,
    actions_far: Seq<StrategyAction>,
    near_market: NormalDistribution,
    far_market: NormalDistribution,
)
    requires
        l.steps(near, event, ln, exp, next_near, actions_near),
        l.steps(far, event, ln, exp, next_far, actions_far),
        !(event is Settle),
        near.distribution == SimDistribution::Normal(near_market),
        far.distribution == SimDistribution::Normal(far_market),
        functional(ln),
        approximation(near_market.variance) == approximation(far_market.variance),
        l.params.belief_mu.is_finite(),
        approximation(near_market.mean).is_finite(),
        approximation(far_market.mean).is_finite(),
        number(variance_of(l.params)) > (0 as real),
        number(approximation(near_market.variance)) > (0 as real),
        !variance_of(l.params).is_nan(),
        !approximation(near_market.variance).is_nan(),
        abs(number(approximation(near_market.mean)) - number(l.params.belief_mu)) <= abs(
            number(approximation(far_market.mean)) - number(l.params.belief_mu),
        ),
    ensures
        ({
            let (a, b) = (next_near.decisions.last().kl, next_far.decisions.last().kl);
            !a.is_nan() && !b.is_nan() ==> number(a) <= number(b)
        }),
{
    let mu = l.params.belief_mu;
    let (mu1, mu2) = (approximation(near_market.mean), approximation(far_market.mean));
    let (var, belief_var) = (approximation(near_market.variance), variance_of(l.params));
    let (b1, m1) = lemma_quote_of_event(l, near, event, ln, exp, next_near, actions_near, near_market);
    let (b2, m2) = lemma_quote_of_event(l, far, event, ln, exp, next_far, actions_far, far_market);
    assert(b1 == b2 && m1 == m2);
    lemma_number(belief_var);
    lemma_number(var);
    assert(greater(belief_var, signed(false, 0)) && greater(var, signed(false, 0))) by {
        reveal(greater);
    }
    lemma_distance_order(mu1, mu2, mu);
    crate::gaussian::law_divergence_with_means_exchanged(mu, belief_var, mu1, var, b1, m1);
    crate::gaussian::law_divergence_with_means_exchanged(mu, belief_var, mu2, var, b1, m1);
    law_divergence_grows_with_the_gap(mu1, mu2, belief_var, mu, var, b1, m1);
    let (x, y) = (divergence(mu, belief_var, mu1, var, b1, m1), divergence(mu, belief_var, mu2, var, b1, m1));
    lemma_number_order(y, x);
    reveal(greater);
}

/// Distances in real numbers are ordered as those in units.
pub proof fn lemma_distance_order(a: Binary64, b: Binary64, c: Binary64)
    ensures
        abs(number(a) - number(c)) <= abs(number(b) - number(c)) <==> distance(a.value() - c.value()) <= distance(
            b.value() - c.value(),
        ),
{
    lemma_small();
    let k = pow2(1074) as real;
    let (x, y, z) = (a.value() as real, b.value() as real, c.value() as real);
    assert(x / k - z / k == (x - z) / k && y / k - z / k == (y - z) / k) by (nonlinear_arith)
        requires
            k > (0 as real),
    ;
    lemma_abs_over(x - z, k);
    lemma_abs_over(y - z, k);
    let (p, q) = (abs(x - z), abs(y - z));
    assert(p <= q <==> p / k <= q / k) by (nonlinear_arith)
        requires
            k > (0 as real),
    ;
    assert(p == distance(a.value() - c.value()) as real);
    assert(q == distance(b.value() - c.value()) as real);
}

/// Dividing by what is above zero keeps the sign.
proof fn lemma_abs_over(x: real, k: real)
    requires
        k > (0 as real),
    ensures
        abs(x / k) == abs(x) / k,
{
    assert(x >= (0 as real) ==> x / k >= (0 as real)) by (nonlinear_arith)
        requires
            k > (0 as real),
    ;
    assert(x < (0 as real) ==> x / k < (0 as real)) by (nonlinear_arith)
        requires
            k > (0 as real),
    ;
    assert((-x) / k == -(x / k)) by (nonlinear_arith)
        requires
            k > (0 as real),
    ;
}

/// An event in a market that is not normal is counted and passed over.
pub proof fn law_other_markets_are_passed_over<L: Fn(Binary64) -> Binary64, E: Fn(Binary64) -> Binary64>(
    l: Ledger,
    state: MarketState,
    event: MarketEvent,
    ln: L,
    exp: E,
    next: Ledger,
    actions: Seq<StrategyAction>,
)
    requires
        l.steps(state, event, ln, exp, next, actions),
        !(event is Settle),
        !(state.distribution is Normal),
    ensures
        actions.len() == 0,
        next.event_counter == l.event_counter + 1,
        next.params == l.params,
        next.decisions == l.decisions,
        next.last_market == l.last_market,
        next.f_orig == l.f_orig,
        next.f_eff == l.f_eff,
        next.realized_log_score == l.realized_log_score,
        next.deadeye_payout == l.deadeye_payout,
        next.payout_breakdown == l.payout_breakdown,
{
}

/// A new strategy has seen nothing and done nothing.
pub proof fn law_new_is_blank(params: EdgeParams, s: BayesianEdgeStrategy)
    requires
        call_ensures(BayesianEdgeStrategy::new, (params,), s),
    ensures
        s.params == params,
        s.decisions@.len() == 0,
        s.event_counter == 0,
        s.last_market is None && s.f_orig is None && s.f_eff is None,
        s.realized_log_score is None && s.deadeye_payout is None && s.payout_breakdown is None,
{
    assert(s@.event_counter == 0);
}

/// `build_candidate` gives the belief in fixed point, exactly if it is in reach, and
/// says what is not.
pub proof fn law_candidate_is_the_belief(s: BayesianEdgeStrategy, r: Result<NormalDistribution, NormalError>)
    requires
        call_ensures(BayesianEdgeStrategy::build_candidate, (&s,), r),
    ensures
        r is Ok <==> in_reach(s.params.belief_mu) && in_reach(variance_of(s.params)),
        r matches Ok(candidate) ==> is_the_belief(candidate, s.params),
        r matches Err(e) ==> (e is Mean <==> !in_reach(s.params.belief_mu)) && !(e is NegativeVariance),
{
    lemma_candidate(s.params);
    lemma_normal_has_its_moments(s.params.belief_mu, variance_of(s.params));
    lemma_square_has_no_sign(s.params.belief_sigma);
    lemma_pow2_pos(946);
}

} // verus!
