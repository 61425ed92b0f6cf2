//! What holds of a strategy over a whole run of events.

use vstd::prelude::*;
use crate::binary64::{
    difference, greater, law_difference_sign, law_nan_propagates, not_a_number, product, same,
    signed, square_root, sum, unsigned, Binary64,
};
use crate::gaussian::{divergence, squared};
use crate::market::{MarketEvent, MarketState, SimDistribution, StrategyAction};
use crate::sq128::{approximation, fits_fixed_point, law_read_back};
use crate::strategy::{answers, Decision, EdgeParams, Ledger};
use crate::synthetic::TimelineSpec;

verus! {

/// One event, with all that the outside contributes to how it is taken.
pub enum Step {
    /// An event that is no settlement, in a normal market at `(mu, var)`.
    Quote {
        /// The event.
        event: MarketEvent,
        /// The mean of the market.
        mu: Binary64,
        /// The variance of the market.
        var: Binary64,
        /// What the logarithm of the belief's variance was taken to be.
        ln_belief: Binary64,
        /// What the logarithm of the market's variance was taken to be.
        ln_market: Binary64,
    },
    /// A settlement, with the log-score and the two densities, if any.
    Settlement {
        /// The log-score.
        score: Option<Binary64>,
        /// The densities at the endpoints of the position.
        densities: Option<(Binary64, Binary64)>,
    },
    /// An event in a market that is not normal.
    Other,
}

/// The divergence of the belief from the market at a quote.
pub open spec fn edge(
    params: EdgeParams,
    mu: Binary64,
    var: Binary64,
    ln_belief: Binary64,
    ln_market: Binary64,
) -> Binary64 {
    divergence(params.belief_mu, params.belief_var(), mu, var, ln_belief, ln_market)
}

/// The ledger after one more event.
pub open spec fn follow(l: Ledger, step: Step) -> Ledger {
    match step {
        Step::Quote { event, mu, var, ln_belief, ln_market } => l.after_quote(
            event,
            mu,
            var,
            edge(l.params, mu, var, ln_belief, ln_market),
        ),
        Step::Settlement { score, densities } => l.after_settlement(score, densities),
        Step::Other => l.after_other(),
    }
}

/// The ledger after a run of events.
pub open spec fn run(l: Ledger, steps: Seq<Step>) -> Ledger
    decreases steps.len(),
{
    if steps.len() == 0 {
        l
    } else {
        follow(run(l, steps.drop_last()), steps.last())
    }
}

/// Whether the outside may contribute this to the ledger `l`: a settlement comes
/// with a log-score exactly if there has been a trade event, and with densities
/// exactly if there is a position.
pub open spec fn fits(l: Ledger, step: Step) -> bool {
    match step {
        Step::Settlement { score, densities } => {
            &&& score is Some <==> l.last_market is Some
            &&& densities is Some <==> l.f_orig is Some && l.f_eff is Some
        },
        _ => true,
    }
}

/// Whether every step of a run fits the ledger that it is taken from.
pub open spec fn all_fit(l: Ledger, steps: Seq<Step>) -> bool {
    forall|i: int| 0 <= i < steps.len() ==> fits(run(l, steps.take(i)), #[trigger] steps[i])
}

/// Whether `step` is what taking `event` in the market `state` comes to: a
/// settlement, a quote at the mean and variance that are read from the market, or
/// an event in a market that is not normal.
pub open spec fn comes_to(state: MarketState, event: MarketEvent, step: Step) -> bool {
    match (event, state.distribution) {
        (MarketEvent::Settle { .. }, _) => step is Settlement,
        (_, SimDistribution::Normal(market)) => step matches Step::Quote { event: e, mu, var, .. } && e == event
            && mu == approximation(market.mean) && var == approximation(market.variance),
        _ => step is Other,
    }
}

/// Every way in which the strategy takes an event is a step of a run: the one that
/// the event comes to. It fits.
pub proof fn law_events_are_steps<L: Fn(Binary64) -> Binary64, E: Fn(Binary64) -> Binary64>(
    l: Ledger,
    state: MarketState,
    event: MarketEvent,
    ln: L,
    exp: E,
    next: Ledger,
    actions: Seq<StrategyAction>,
)
    requires
        l.steps(state, event, ln, exp, next, actions),
    ensures
        exists|step: Step|
            next == #[trigger] follow(l, step) && fits(l, step) && comes_to(state, event, step),
{
    match event {
        MarketEvent::Settle { x_star } => {
            let (score, densities) = choose|score: Option<Binary64>, densities: Option<(Binary64, Binary64)>|
                {
                    &&& #[trigger] l.is_score(x_star, ln, score)
                    &&& #[trigger] l.are_densities(x_star, ln, exp, densities)
                    &&& next == l.after_settlement(score, densities)
                };
            let step = Step::Settlement { score, densities };
            assert(next == follow(l, step) && fits(l, step) && comes_to(state, event, step));
        },
        _ => match state.distribution {
            SimDistribution::Normal(market) => {
                let mu = approximation(market.mean);
                let var = approximation(market.variance);
                let (b, m) = choose|b: Binary64, m: Binary64|
                    {
                        let kl = divergence(l.params.belief_mu, l.params.belief_var(), mu, var, b, m);
                        &&& #[trigger] answers(ln, l.params.belief_var(), b)
                        &&& #[trigger] answers(ln, var, m)
                        &&& next == l.after_quote(event, mu, var, kl)
                        &&& actions == l.asks(event, kl)
                    };
                let step = Step::Quote { event, mu, var, ln_belief: b, ln_market: m };
                assert(next == follow(l, step) && fits(l, step) && comes_to(state, event, step));
            },
            _ => {
                let step = Step::Other;
                assert(next == follow(l, step) && fits(l, step) && comes_to(state, event, step));
            },
        },
    }
}

/// There is no edge in a belief that is no number.
proof fn lemma_no_edge_without_a_belief(
    params: EdgeParams,
    mu: Binary64,
    var: Binary64,
    ln_belief: Binary64,
    ln_market: Binary64,
)
    requires
        params.belief_mu.is_nan() || params.belief_var().is_nan(),
    ensures
        !greater(edge(params, mu, var, ln_belief, ln_market), params.edge_threshold),
{
    let (m, v) = params.belief();
    let gap = difference(m, mu);
    let sq = squared(gap);
    if m.is_nan() {
        law_nan_propagates(m, mu);
        law_nan_propagates(gap, gap);
    }
    law_nan_propagates(v, sq);
    let top = sum(v, sq);
    let bottom = product(crate::gaussian::two(), var);
    law_nan_propagates(top, bottom);
    let left = product(crate::gaussian::half(), difference(ln_market, ln_belief));
    law_nan_propagates(left, not_a_number());
    law_nan_propagates(not_a_number(), crate::gaussian::half());
    law_nan_propagates(not_a_number(), params.edge_threshold);
}

/// A number equals itself.
proof fn lemma_same_as_itself(a: Binary64)
    requires
        !a.is_nan(),
    ensures
        same(a, a),
{
    reveal(same);
}

/// Whether decision `d` was taken at the quote `at`.
pub open spec fn taken_at(d: Decision, at: (Binary64, Binary64)) -> bool {
    d.market_mu == at.0 && d.market_sigma == square_root(at.1)
}

/// Whether decision `d` came to a trade: it was to reshape the market, and the
/// belief can be written in fixed point.
pub open spec fn acted_on(d: Decision, params: EdgeParams) -> bool {
    d.traded && params.candidate() is Ok
}

/// What every ledger of a strategy with the belief `params` keeps to: it has
/// a position exactly if it has traded; it has done so once at most; its position
/// leads from the quote of that time to the belief; and it decides to trade on an
/// edge above the threshold only.
pub open spec fn keeps_one_position(l: Ledger, params: EdgeParams) -> bool {
    &&& l.params == params
    &&& l.f_orig is Some <==> l.f_eff is Some
    &&& l.f_eff is Some <==> exists|i: int|
        0 <= i < l.decisions.len() && acted_on(#[trigger] l.decisions[i], params)
    &&& forall|i: int, j: int|
        0 <= i < l.decisions.len() && 0 <= j < l.decisions.len() && acted_on(
            #[trigger] l.decisions[i],
            params,
        ) && acted_on(#[trigger] l.decisions[j], params) ==> i == j
    &&& forall|i: int|
        0 <= i < l.decisions.len() && acted_on(#[trigger] l.decisions[i], params) ==> l.f_orig is Some
            && taken_at(l.decisions[i], l.f_orig->0)
    &&& forall|i: int|
        0 <= i < l.decisions.len() && (#[trigger] l.decisions[i]).traded ==> greater(
            l.decisions[i].kl,
            params.edge_threshold,
        )
    &&& l.f_eff is Some ==> l.f_eff == Some(params.belief()) && !params.belief_mu.is_nan()
        && !params.belief_var().is_nan()
}

/// One more event keeps to it.
proof fn lemma_follow_keeps_one_position(l: Ledger, params: EdgeParams, step: Step)
    requires
        keeps_one_position(l, params),
    ensures
        keeps_one_position(follow(l, step), params),
{
    let next = follow(l, step);
    match step {
        Step::Quote { event, mu, var, ln_belief, ln_market } => {
            let kl = edge(l.params, mu, var, ln_belief, ln_market);
            let n = l.decisions.len() as int;
            assert(forall|i: int| 0 <= i < n ==> next.decisions[i] == l.decisions[i]);
            if l.reshapes(event, kl) {
                if params.belief_mu.is_nan() || params.belief_var().is_nan() {
                    lemma_no_edge_without_a_belief(params, mu, var, ln_belief, ln_market);
                }
                if l.f_eff is Some {
                    lemma_same_as_itself(params.belief_mu);
                    lemma_same_as_itself(params.belief_var());
                }
                assert(next.decisions[n].traded);
                assert(l.trades(event, kl) ==> acted_on(next.decisions[n], params));
            } else {
                assert(!next.decisions[n].traded);
                if l.f_eff is Some {
                    let i = choose|i: int|
                        0 <= i < l.decisions.len() && acted_on(#[trigger] l.decisions[i], params);
                    assert(acted_on(next.decisions[i], params));
                }
            }
        },
        _ => {
            assert(next.decisions == l.decisions);
        },
    }
}

/// A strategy whose belief stays as it is trades once at most,
/// however the market drifts; its position leads from the quote at that time to
/// the belief, and it has none as long as it has not traded.
pub proof fn law_one_position(params: EdgeParams, steps: Seq<Step>)
    ensures
        keeps_one_position(run(Ledger::fresh(params), steps), params),
    decreases steps.len(),
{
    if steps.len() > 0 {
        law_one_position(params, steps.drop_last());
        lemma_follow_keeps_one_position(
            run(Ledger::fresh(params), steps.drop_last()),
            params,
            steps.last(),
        );
    }
}

/// A position value is always the difference of the two densities that are
/// recorded with it. There is none without a trade, and after a settlement there is
/// one exactly if there has been a trade.
pub proof fn law_value_goes_with_a_trade(params: EdgeParams, steps: Seq<Step>)
    requires
        all_fit(Ledger::fresh(params), steps),
    ensures
        ({
            let l = run(Ledger::fresh(params), steps);
            let traded = exists|i: int|
                0 <= i < l.decisions.len() && acted_on(#[trigger] l.decisions[i], params);
            &&& match l.payout_breakdown {
                Some((orig, eff)) => l.deadeye_payout == Some(difference(eff, orig)),
                None => l.deadeye_payout is None,
            }
            &&& l.deadeye_payout is Some ==> traded
            &&& steps.len() > 0 && steps.last() is Settlement ==> (l.deadeye_payout is Some <==> traded)
        }),
    decreases steps.len(),
{
    if steps.len() > 0 {
        let first = Ledger::fresh(params);
        let init = steps.drop_last();
        let before = run(first, init);
        let l = run(first, steps);
        let n = init.len() as int;
        assert(steps.take(n) == init);
        assert(fits(before, steps[n]));
        assert forall|i: int| 0 <= i < init.len() implies fits(run(first, init.take(i)), #[trigger] init[i]) by {
            assert(init.take(i) == steps.take(i));
            assert(init[i] == steps[i]);
        }
        law_value_goes_with_a_trade(params, init);
        law_one_position(params, init);
        if l.deadeye_payout is Some {
            assert(before.decisions.len() <= l.decisions.len());
            assert(forall|i: int| 0 <= i < before.decisions.len() ==> l.decisions[i] == before.decisions[i]);
            let i = choose|i: int|
                0 <= i < before.decisions.len() && acted_on(#[trigger] before.decisions[i], params);
            assert(acted_on(l.decisions[i], params));
        }
    }
}

/// The ledger after one more event, had the strategy traded on every edge,
/// also where its position ends at the belief already.
pub open spec fn follow_eagerly(l: Ledger, step: Step) -> Ledger {
    match step {
        Step::Quote { event, mu, var, ln_belief, ln_market } => {
            let traded = event is Trade && greater(
                edge(l.params, mu, var, ln_belief, ln_market),
                l.params.edge_threshold,
            );
            let acts = traded && l.params.candidate() is Ok;
            let guarded = follow(l, step);
            Ledger {
                decisions: l.decisions.push(Decision { traded, ..guarded.decisions.last() }),
                f_orig: if acts && l.f_orig is None {
                    Some((mu, var))
                } else {
                    l.f_orig
                },
                f_eff: if acts {
                    Some(l.params.belief())
                } else {
                    l.f_eff
                },
                ..guarded
            }
        },
        _ => follow(l, step),
    }
}

/// The ledger after a run of events, had the strategy traded on every edge.
pub open spec fn run_eagerly(l: Ledger, steps: Seq<Step>) -> Ledger
    decreases steps.len(),
{
    if steps.len() == 0 {
        l
    } else {
        follow_eagerly(run_eagerly(l, steps.drop_last()), steps.last())
    }
}

/// Trading again and again toward a belief that stays as it is changes nothing
/// but the number of trades: the endpoints of the position, and with them all
/// that settlements record, are the same.
pub proof fn law_retrading_changes_nothing(params: EdgeParams, steps: Seq<Step>)
    ensures
        ({
            let once = run(Ledger::fresh(params), steps);
            let again = run_eagerly(Ledger::fresh(params), steps);
            &&& again.params == once.params
            &&& again.f_orig == once.f_orig
            &&& again.f_eff == once.f_eff
            &&& again.last_market == once.last_market
            &&& again.realized_log_score == once.realized_log_score
            &&& again.deadeye_payout == once.deadeye_payout
            &&& again.payout_breakdown == once.payout_breakdown
            &&& again.event_counter == once.event_counter
            &&& again.decisions.len() == once.decisions.len()
        }),
    decreases steps.len(),
{
    if steps.len() > 0 {
        law_retrading_changes_nothing(params, steps.drop_last());
        law_one_position(params, steps.drop_last());
    }
}

/// The numbers of the quotes among the events of a run, in order.
pub open spec fn quotes_among(steps: Seq<Step>) -> Seq<int>
    decreases steps.len(),
{
    if steps.len() == 0 {
        Seq::empty()
    } else {
        let before = quotes_among(steps.drop_last());
        if steps.last() is Quote {
            before.push(steps.len() - 1)
        } else {
            before
        }
    }
}

/// The quotes are numbered in order and without repetition, and none is left out.
proof fn lemma_quotes_among(steps: Seq<Step>)
    ensures
        forall|i: int|
            0 <= i < quotes_among(steps).len() ==> 0 <= #[trigger] quotes_among(steps)[i] < steps.len()
                && steps[quotes_among(steps)[i]] is Quote,
        forall|i: int, j: int|
            0 <= i < j < quotes_among(steps).len() ==> #[trigger] quotes_among(steps)[i]
                < #[trigger] quotes_among(steps)[j],
        forall|n: int|
            0 <= n < steps.len() && #[trigger] steps[n] is Quote ==> quotes_among(steps).contains(n),
    decreases steps.len(),
{
    if steps.len() > 0 {
        let init = steps.drop_last();
        let before = quotes_among(init);
        let all = quotes_among(steps);
        lemma_quotes_among(init);
        assert(forall|i: int| 0 <= i < before.len() ==> all[i] == #[trigger] before[i]);
        assert(forall|n: int| 0 <= n < init.len() ==> init[n] == #[trigger] steps[n]);
        assert forall|n: int| 0 <= n < steps.len() && #[trigger] steps[n] is Quote implies all.contains(n) by {
            if n < init.len() {
                assert(init[n] is Quote);
                let i = choose|i: int| 0 <= i < before.len() && before[i] == n;
                assert(all[i] == n);
            } else {
                assert(all[before.len() as int] == n);
            }
        }
    }
}

/// The decision that a strategy in the state `l` records at the event `n`, a quote.
pub open spec fn decision_at(l: Ledger, step: Step, n: int) -> Decision {
    match step {
        Step::Quote { event, mu, var, ln_belief, ln_market } => {
            let kl = edge(l.params, mu, var, ln_belief, ln_market);
            Decision {
                event_idx: n as usize,
                market_mu: mu,
                market_sigma: square_root(var),
                kl,
                traded: l.reshapes(event, kl),
            }
        },
        _ => arbitrary(),
    }
}

/// There is one decision for each quote of a run and none for any other event, in
/// order. Each holds the number of its event, the mean and the standard deviation
/// of the quote, the divergence from it and what the rule said at that time. The
/// counter counts the events.
pub proof fn law_decisions_are_numbered(params: EdgeParams, steps: Seq<Step>)
    requires
        steps.len() <= usize::MAX,
    ensures
        ({
            let first = Ledger::fresh(params);
            let l = run(first, steps);
            let quotes = quotes_among(steps);
            &&& l.params == params
            &&& l.event_counter == steps.len()
            &&& l.decisions.len() == quotes.len()
            &&& forall|i: int|
                0 <= i < l.decisions.len() ==> {
                    &&& 0 <= quotes[i] < steps.len()
                    &&& steps[quotes[i]] is Quote
                    &&& #[trigger] l.decisions[i] == decision_at(
                        run(first, steps.take(quotes[i])),
                        steps[quotes[i]],
                        quotes[i],
                    )
                }
            &&& forall|i: int, j: int|
                0 <= i < j < l.decisions.len() ==> (#[trigger] l.decisions[i]).event_idx < (
                #[trigger] l.decisions[j]).event_idx
            &&& forall|n: int| 0 <= n < steps.len() && #[trigger] steps[n] is Quote ==> quotes.contains(n)
        }),
    decreases steps.len(),
{
    let first = Ledger::fresh(params);
    let l = run(first, steps);
    let quotes = quotes_among(steps);
    lemma_quotes_among(steps);
    if steps.len() > 0 {
        let init = steps.drop_last();
        let before = run(first, init);
        let earlier = quotes_among(init);
        law_decisions_are_numbered(params, init);
        lemma_quotes_among(init);
        assert(steps.take(steps.len() - 1) == init);
        assert forall|i: int| 0 <= i < l.decisions.len() implies #[trigger] l.decisions[i] == decision_at(
            run(first, steps.take(quotes[i])),
            steps[quotes[i]],
            quotes[i],
        ) by {
            if i < before.decisions.len() {
                assert(before.decisions[i] == l.decisions[i]);
                assert(earlier[i] == quotes[i]);
                assert(init.take(earlier[i]) == steps.take(earlier[i]));
            }
        }
    }
    assert forall|i: int, j: int| 0 <= i < j < l.decisions.len() implies (#[trigger] l.decisions[i]).event_idx < (
    #[trigger] l.decisions[j]).event_idx by {
        assert(quotes[i] < quotes[j]);
    }
}

/// Whether event `n` of a run is a quote at which the strategy trades.
pub open spec fn trades_at(first: Ledger, steps: Seq<Step>, n: int) -> bool {
    let l = run(first, steps.take(n));
    steps[n] matches Step::Quote { event, mu, var, ln_belief, ln_market } && l.trades(
        event,
        edge(l.params, mu, var, ln_belief, ln_market),
    )
}

/// Whether `step` is a quote after a trade in the market.
pub open spec fn is_trade_event(step: Step) -> bool {
    step matches Step::Quote { event, .. } && event is Trade
}

/// Mean and variance of a quote.
pub open spec fn quote_of(step: Step) -> (Binary64, Binary64) {
    (step->mu, step->var)
}

/// Leaving out the last event changes nothing of the trades before it.
proof fn lemma_earlier_trades(first: Ledger, steps: Seq<Step>)
    requires
        steps.len() > 0,
    ensures
        forall|n: int|
            0 <= n < steps.len() - 1 ==> trades_at(first, steps.drop_last(), n) == #[trigger] trades_at(
                first,
                steps,
                n,
            ),
{
    let init = steps.drop_last();
    assert forall|n: int| 0 <= n < steps.len() - 1 implies trades_at(first, init, n) == #[trigger] trades_at(
        first,
        steps,
        n,
    ) by {
        assert(init.take(n) == steps.take(n));
        assert(init[n] == steps[n]);
    }
}

/// Whether event `n` of a run is the first at which the strategy trades.
pub open spec fn trades_first_at(first: Ledger, steps: Seq<Step>, n: int) -> bool {
    &&& 0 <= n < steps.len()
    &&& trades_at(first, steps, n)
    &&& forall|m: int| 0 <= m < n ==> !#[trigger] trades_at(first, steps, m)
}

/// A position begins at the quote of the first trade, in mean and variance, and
/// ends at the belief; there is none as long as there is no trade.
pub proof fn law_position_begins_at_the_first_trade(params: EdgeParams, steps: Seq<Step>)
    ensures
        ({
            let first = Ledger::fresh(params);
            let l = run(first, steps);
            &&& l.f_orig is None <==> forall|n: int| 0 <= n < steps.len() ==> !#[trigger] trades_at(first, steps, n)
            &&& forall|n: int| #[trigger] trades_first_at(first, steps, n) ==> l.f_orig == Some(quote_of(steps[n]))
            &&& l.f_eff == if l.f_orig is None {
                None
            } else {
                Some(params.belief())
            }
        }),
    decreases steps.len(),
{
    let first = Ledger::fresh(params);
    let l = run(first, steps);
    law_one_position(params, steps);
    if steps.len() > 0 {
        let init = steps.drop_last();
        let k = init.len() as int;
        let before = run(first, init);
        law_position_begins_at_the_first_trade(params, init);
        lemma_earlier_trades(first, steps);
        assert(steps.take(k) == init);
        if before.f_orig is Some {
            let n = choose|n: int| 0 <= n < k && trades_at(first, init, n);
            assert(trades_at(first, steps, n));
        } else {
            assert forall|n: int| 0 <= n < k implies !#[trigger] trades_at(first, steps, n) by {
                assert(!trades_at(first, init, n));
            }
            assert(l.f_orig is Some <==> trades_at(first, steps, k));
        }
        assert forall|n: int| #[trigger] trades_first_at(first, steps, n) implies l.f_orig == Some(
            quote_of(steps[n]),
        ) by {
            assert forall|m: int| 0 <= m < n implies !#[trigger] trades_at(first, init, m) by {
                assert(!trades_at(first, steps, m));
            }
            if n < k {
                assert(trades_at(first, steps, n));
                assert(trades_first_at(first, init, n));
                assert(init[n] == steps[n]);
            }
        }
    }
}

/// Whether event `n` of a run is its last trade event.
pub open spec fn last_trade_event(steps: Seq<Step>, n: int) -> bool {
    &&& 0 <= n < steps.len()
    &&& is_trade_event(steps[n])
    &&& forall|m: int| n < m < steps.len() ==> !is_trade_event(#[trigger] steps[m])
}

/// The last market is the quote of the last trade event; there is none before the
/// first.
pub proof fn law_last_market_is_the_last_quote(params: EdgeParams, steps: Seq<Step>)
    ensures
        ({
            let l = run(Ledger::fresh(params), steps);
            &&& l.last_market is None <==> forall|n: int|
                0 <= n < steps.len() ==> !is_trade_event(#[trigger] steps[n])
            &&& forall|n: int| #[trigger] last_trade_event(steps, n) ==> l.last_market == Some(quote_of(steps[n]))
        }),
    decreases steps.len(),
{
    if steps.len() > 0 {
        let init = steps.drop_last();
        let k = init.len() as int;
        let before = run(Ledger::fresh(params), init);
        let l = run(Ledger::fresh(params), steps);
        law_last_market_is_the_last_quote(params, init);
        assert(forall|n: int| 0 <= n < k ==> init[n] == #[trigger] steps[n]);
        if before.last_market is Some {
            let n = choose|n: int| 0 <= n < k && is_trade_event(#[trigger] init[n]);
            assert(is_trade_event(steps[n]));
        }
        assert(is_trade_event(steps[k]) ==> l.last_market == Some(quote_of(steps[k])));
        assert(!is_trade_event(steps[k]) ==> l.last_market == before.last_market);
        assert forall|n: int| #[trigger] last_trade_event(steps, n) implies l.last_market == Some(
            quote_of(steps[n]),
        ) by {
            if n < k {
                assert(!is_trade_event(steps[k]));
                assert(last_trade_event(init, n));
            }
        }
    }
}

/// Whether `steps` are the events of a timeline, shown in order: each trade leaves
/// the market at its candidate, and the settlement comes last.
pub open spec fn shows(spec: TimelineSpec, steps: Seq<Step>) -> bool {
    &&& steps.len() == spec.steps + 1
    &&& steps.last() is Settlement
    &&& forall|i: int|
        0 <= i < spec.steps ==> is_trade_event(#[trigger] steps[i]) && quote_of(steps[i]) == (
            approximation(spec.candidate_at(i)->Ok_0.mean),
            approximation(spec.candidate_at(i)->Ok_0.variance),
        )
}

/// A strategy that is shown a timeline records one decision for each trade and none
/// for the settlement. Decision `i` is numbered `i` and holds the mean and the
/// standard deviation of the candidate of trade `i`, whatever the strategy itself
/// did before: the mean is the one that the drift has then, up to the sign of a
/// zero, where it has no bits below `2^-128`, and the like holds of the variance.
pub proof fn law_timeline_is_recorded(spec: TimelineSpec, params: EdgeParams, steps: Seq<Step>)
    requires
        spec.steps < usize::MAX,
        shows(spec, steps),
    ensures
        ({
            let l = run(Ledger::fresh(params), steps);
            &&& l.decisions.len() == spec.steps
            &&& forall|i: int|
                0 <= i < spec.steps ==> {
                    &&& (#[trigger] l.decisions[i]).event_idx == i
                    &&& l.decisions[i].market_mu == approximation(spec.candidate_at(i)->Ok_0.mean)
                    &&& l.decisions[i].market_sigma == square_root(
                        approximation(spec.candidate_at(i)->Ok_0.variance),
                    )
                    &&& spec.candidate_at(i) is Ok && fits_fixed_point(spec.mu_at(i)) && !spec.mu_at(i).is_zero()
                        ==> l.decisions[i].market_mu == spec.mu_at(i)
                    &&& spec.candidate_at(i) is Ok && fits_fixed_point(squared(spec.sigma_at(i))) && !squared(
                        spec.sigma_at(i),
                    ).is_zero() ==> l.decisions[i].market_sigma == square_root(squared(spec.sigma_at(i)))
                }
        }),
{
    let trades = steps.drop_last();
    law_decisions_are_numbered(params, steps);
    assert forall|i: int| 0 <= i < trades.len() implies #[trigger] trades[i] is Quote by {
        assert(is_trade_event(steps[i]));
    }
    lemma_all_quotes(trades);
    assert(quotes_among(steps) == quotes_among(trades));
    let l = run(Ledger::fresh(params), steps);
    assert forall|i: int| 0 <= i < spec.steps implies {
        &&& (#[trigger] l.decisions[i]).event_idx == i
        &&& l.decisions[i].market_mu == approximation(spec.candidate_at(i)->Ok_0.mean)
        &&& l.decisions[i].market_sigma == square_root(approximation(spec.candidate_at(i)->Ok_0.variance))
    } by {
        assert(is_trade_event(steps[i]));
    }
    assert forall|i: int| 0 <= i < spec.steps && spec.candidate_at(i) is Ok implies {
        &&& fits_fixed_point(spec.mu_at(i)) && !spec.mu_at(i).is_zero() ==> (#[trigger] l.decisions[i]).market_mu
            == spec.mu_at(i)
        &&& fits_fixed_point(squared(spec.sigma_at(i))) && !squared(spec.sigma_at(i)).is_zero()
            ==> l.decisions[i].market_sigma == square_root(squared(spec.sigma_at(i)))
    } by {
        if fits_fixed_point(spec.mu_at(i)) {
            law_read_back(spec.mu_at(i));
        }
        if fits_fixed_point(squared(spec.sigma_at(i))) {
            law_read_back(squared(spec.sigma_at(i)));
        }
    }
}

/// Where all events are quotes, they are numbered from zero.
proof fn lemma_all_quotes(steps: Seq<Step>)
    requires
        forall|i: int| 0 <= i < steps.len() ==> #[trigger] steps[i] is Quote,
    ensures
        quotes_among(steps) == Seq::new(steps.len(), |i: int| i),
    decreases steps.len(),
{
    if steps.len() > 0 {
        let init = steps.drop_last();
        assert forall|i: int| 0 <= i < init.len() implies #[trigger] init[i] is Quote by {
            assert(steps[i] is Quote);
        }
        lemma_all_quotes(init);
        assert(steps[steps.len() - 1] is Quote);
    }
    assert(quotes_among(steps) =~= Seq::new(steps.len(), |i: int| i));
}

/// The densities that a settlement records are not below zero, where the
/// exponential function never gives less.
pub proof fn law_densities_are_not_negative<L: Fn(Binary64) -> Binary64, E: Fn(Binary64) -> Binary64>(
    l: Ledger,
    x: Binary64,
    ln: L,
    exp: E,
    next: Ledger,
    actions: Seq<StrategyAction>,
)
    requires
        l.settles(x, ln, exp, next, actions),
        forall|v: Binary64, d: Binary64| #[trigger] answers(exp, v, d) ==> unsigned(d),
        l.f_orig is Some,
        l.f_eff is Some,
    ensures
        next.payout_breakdown matches Some((orig, eff)) && unsigned(orig) && unsigned(eff),
{
}

/// Only a trade event moves the position or the last market, and only an event
/// that is no settlement adds a decision; what is decided stays.
pub proof fn law_other_events_leave_the_position(l: Ledger, step: Step)
    requires
        !(step matches Step::Quote { event, .. } && event is Trade),
    ensures
        follow(l, step).last_market == l.last_market,
        follow(l, step).f_orig == l.f_orig,
        follow(l, step).f_eff == l.f_eff,
        !(step is Quote) ==> follow(l, step).decisions == l.decisions,
        l.decisions.len() <= follow(l, step).decisions.len(),
        forall|i: int| 0 <= i < l.decisions.len() ==> follow(l, step).decisions[i] == #[trigger] l.decisions[i],
{
}

/// What the strategy asks for is its belief. It asks exactly where the decision
/// that it records is to reshape the market and the belief can be written in fixed
/// point; where it does not ask, its position stays as it is.
pub proof fn law_asks_for_its_belief(l: Ledger, event: MarketEvent, mu: Binary64, var: Binary64, kl: Binary64)
    ensures
        ({
            let next = l.after_quote(event, mu, var, kl);
            let asked = l.asks(event, kl);
            &&& asked.len() <= 1
            &&& asked.len() == 1 <==> acted_on(next.decisions.last(), l.params)
            &&& asked.len() == 1 ==> asked[0] == (StrategyAction::Trade {
                candidate: l.params.candidate()->Ok_0,
            }) && next.f_eff == Some(l.params.belief()) && next.f_orig is Some
            &&& asked.len() == 0 ==> next.f_orig == l.f_orig && next.f_eff == l.f_eff
            &&& next.decisions.last().traded ==> event is Trade && greater(kl, l.params.edge_threshold)
        }),
{
}

/// A settlement values a position by its two endpoints alone: for any other
/// ledger with the same endpoints the same densities come into question, and
/// they give the same value.
pub proof fn law_value_depends_on_endpoints<L: Fn(Binary64) -> Binary64, E: Fn(Binary64) -> Binary64>(
    l: Ledger,
    other: Ledger,
    x: Binary64,
    ln: L,
    exp: E,
    densities: Option<(Binary64, Binary64)>,
    score: Option<Binary64>,
    other_score: Option<Binary64>,
)
    requires
        l.f_orig == other.f_orig,
        l.f_eff == other.f_eff,
        l.f_orig is Some,
        l.f_eff is Some,
        l.are_densities(x, ln, exp, densities),
    ensures
        other.are_densities(x, ln, exp, densities),
        l.after_settlement(score, densities).deadeye_payout is Some,
        l.after_settlement(score, densities).deadeye_payout == other.after_settlement(
            other_score,
            densities,
        ).deadeye_payout,
        l.after_settlement(score, densities).payout_breakdown == other.after_settlement(
            other_score,
            densities,
        ).payout_breakdown,
{
}

/// A position is worth more than nothing exactly if the outcome is denser where
/// it ends than where it begins, and less than nothing exactly if it is less
/// dense there.
pub proof fn law_value_rewards_the_truth(l: Ledger, score: Option<Binary64>, orig: Binary64, eff: Binary64)
    requires
        orig.is_finite(),
        eff.is_finite(),
    ensures
        ({
            let settled = l.after_settlement(score, Some((orig, eff)));
            let zero = signed(false, 0);
            &&& settled.payout_breakdown == Some((orig, eff))
            &&& settled.deadeye_payout matches Some(value)
            &&& greater(value, zero) == greater(eff, orig)
            &&& greater(zero, value) == greater(orig, eff)
        }),
{
    law_difference_sign(eff, orig);
}

} // verus!
