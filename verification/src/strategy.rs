//! The Bayesian edge strategy.
//!
//! The strategy carries a private belief `N(mu_b, sigma_b^2)`. Where a trade
//! leaves the market at a quote from which the belief diverges by more than the
//! edge threshold, the strategy reshapes the market to its belief, unless its
//! position already ends there: the value of a position at settlement depends
//! on its two endpoints alone, so that another reshape to the same belief would
//! cost collateral and change nothing.

use vstd::prelude::*;
use crate::binary64::{difference, greater, same, square_root, Binary64};
use crate::gaussian::{
    divergence, divergence_from, log_density, log_pdf_normalizer, normal_log_pdf, normalizer, squared,
};
use crate::market::{
    normal, MarketEvent, MarketState, NormalDistribution, NormalError, SimDistribution,
    StrategyAction,
};
use crate::sq128::approximation;

verus! {

/// What a strategy believes and when it acts on it.
#[derive(Debug, Clone, Copy)]
pub struct EdgeParams {
    /// The name that reports use.
    pub label: &'static str,
    /// The mean of the belief.
    pub belief_mu: Binary64,
    /// The standard deviation of the belief.
    pub belief_sigma: Binary64,
    /// The divergence, in nats, above which there is an edge.
    pub edge_threshold: Binary64,
}

/// What the strategy saw and did at one event.
#[derive(Debug, Clone, Copy, PartialEq, Eq, Structural)]
pub struct Decision {
    /// The number of the event, from zero.
    pub event_idx: usize,
    /// The mean of the market.
    pub market_mu: Binary64,
    /// The standard deviation of the market.
    pub market_sigma: Binary64,
    /// The divergence of the belief from the market.
    pub kl: Binary64,
    /// Whether the decision was to reshape the market. It comes to a trade where
    /// the belief can be written in fixed point; otherwise the strategy holds.
    pub traded: bool,
}

/// The strategy and what it has recorded so far.
pub struct BayesianEdgeStrategy {
    /// The belief and the threshold.
    pub params: EdgeParams,
    /// One entry per event at which the market was normal, but settlements.
    pub decisions: Vec<Decision>,
    /// `log p_belief(x*) - log p_market(x*)` at settlement.
    pub realized_log_score: Option<Binary64>,
    /// The position value at settlement: `pdf(f_eff, x*) - pdf(f_orig, x*)`.
    pub deadeye_payout: Option<Binary64>,
    /// `(pdf(f_orig, x*), pdf(f_eff, x*))`.
    pub payout_breakdown: Option<(Binary64, Binary64)>,
    /// Mean and variance that the last trade event left the market at.
    pub last_market: Option<(Binary64, Binary64)>,
    /// Mean and variance of the market at the strategy's first trade: the lower
    /// endpoint of its position.
    pub f_orig: Option<(Binary64, Binary64)>,
    /// Mean and variance that the strategy's last trade moved the market to.
    pub f_eff: Option<(Binary64, Binary64)>,
    /// How many events the strategy has been shown.
    pub event_counter: usize,
}

/// What a strategy holds.
pub struct Ledger {
    /// The belief and the threshold.
    pub params: EdgeParams,
    /// The recorded decisions.
    pub decisions: Seq<Decision>,
    /// The log-score at settlement.
    pub realized_log_score: Option<Binary64>,
    /// The position value at settlement.
    pub deadeye_payout: Option<Binary64>,
    /// The two densities that the position value is the difference of.
    pub payout_breakdown: Option<(Binary64, Binary64)>,
    /// Where the last trade event left the market.
    pub last_market: Option<(Binary64, Binary64)>,
    /// Where the position begins.
    pub f_orig: Option<(Binary64, Binary64)>,
    /// Where the position ends.
    pub f_eff: Option<(Binary64, Binary64)>,
    /// How many events there have been.
    pub event_counter: nat,
}

impl EdgeParams {
    /// The variance of the belief.
    pub open spec fn belief_var(self) -> Binary64 {
        squared(self.belief_sigma)
    }

    /// Mean and variance of the belief.
    pub open spec fn belief(self) -> (Binary64, Binary64) {
        (self.belief_mu, self.belief_var())
    }

    /// The belief as a distribution to move the market to, or why there is none.
    pub open spec fn candidate(self) -> Result<NormalDistribution, NormalError> {
        normal(self.belief_mu, self.belief_var())
    }
}

impl Ledger {
    /// The ledger of a strategy that has seen nothing.
    pub open spec fn fresh(params: EdgeParams) -> Ledger {
        Ledger {
            params,
            decisions: Seq::empty(),
            realized_log_score: None,
            deadeye_payout: None,
            payout_breakdown: None,
            last_market: None,
            f_orig: None,
            f_eff: None,
            event_counter: 0,
        }
    }

    /// Whether the position ends somewhere else than at the belief.
    pub open spec fn belief_moved(self) -> bool {
        match self.f_eff {
            None => true,
            Some((mu, var)) => !(same(mu, self.params.belief_mu) && same(var, self.params.belief_var())),
        }
    }

    /// The decision rule: a trade event, an edge above the threshold, and a
    /// belief that the position does not end at yet.
    pub open spec fn reshapes(self, event: MarketEvent, kl: Binary64) -> bool {
        event is Trade && greater(kl, self.params.edge_threshold) && self.belief_moved()
    }

    /// Whether the strategy trades: the rule says to reshape the market, and there
    /// is a candidate to reshape it to.
    pub open spec fn trades(self, event: MarketEvent, kl: Binary64) -> bool {
        self.reshapes(event, kl) && self.params.candidate() is Ok
    }

    /// The ledger after an event that is no settlement, in a normal market at
    /// `(mu, var)` from which the belief diverges by `kl`. The endpoints of the
    /// position move with a trade only.
    pub open spec fn after_quote(self, event: MarketEvent, mu: Binary64, var: Binary64, kl: Binary64) -> Ledger {
        Ledger {
            decisions: self.decisions.push(
                Decision {
                    event_idx: self.event_counter as usize,
                    market_mu: mu,
                    market_sigma: square_root(var),
                    kl,
                    traded: self.reshapes(event, kl),
                },
            ),
            last_market: if event is Trade {
                Some((mu, var))
            } else {
                self.last_market
            },
            f_orig: if self.trades(event, kl) && self.f_orig is None {
                Some((mu, var))
            } else {
                self.f_orig
            },
            f_eff: if self.trades(event, kl) {
                Some(self.params.belief())
            } else {
                self.f_eff
            },
            event_counter: self.event_counter + 1,
            ..self
        }
    }

    /// What the strategy asks for after such an event: the belief where it trades,
    /// and nothing otherwise.
    pub open spec fn asks(self, event: MarketEvent, kl: Binary64) -> Seq<StrategyAction> {
        if self.trades(event, kl) {
            seq![StrategyAction::Trade { candidate: self.params.candidate()->Ok_0 }]
        } else {
            Seq::empty()
        }
    }

    /// The ledger after a settlement, from the log-score and the densities at
    /// the two endpoints, where there are any.
    pub open spec fn after_settlement(
        self,
        score: Option<Binary64>,
        densities: Option<(Binary64, Binary64)>,
    ) -> Ledger {
        Ledger {
            realized_log_score: if score is Some {
                score
            } else {
                self.realized_log_score
            },
            deadeye_payout: match densities {
                Some((orig, eff)) => Some(difference(eff, orig)),
                None => self.deadeye_payout,
            },
            payout_breakdown: if densities is Some {
                densities
            } else {
                self.payout_breakdown
            },
            event_counter: self.event_counter + 1,
            ..self
        }
    }

    /// The ledger after an event in a market that is not normal.
    pub open spec fn after_other(self) -> Ledger {
        Ledger { event_counter: self.event_counter + 1, ..self }
    }
}

/// Whether `f` may give `y` for `x`.
pub open spec fn answers<F: Fn(Binary64) -> Binary64>(f: F, x: Binary64, y: Binary64) -> bool {
    call_ensures(f, (x,), y)
}

/// Whether `d` is the density at `x` of the normal distribution with the mean
/// and variance `at`, as `ln` and `exp` answer.
pub open spec fn is_density<L: Fn(Binary64) -> Binary64, E: Fn(Binary64) -> Binary64>(
    x: Binary64,
    at: (Binary64, Binary64),
    ln: L,
    exp: E,
    d: Binary64,
) -> bool {
    exists|l: Binary64|
        #[trigger] answers(ln, normalizer(at.1), l) && answers(exp, log_density(x, at.0, at.1, l), d)
}

impl Ledger {
    /// Whether `score` is the log-density of the belief at `x` less that of the
    /// last market, as `ln` answers; there is none before the first trade event.
    pub open spec fn is_score<L: Fn(Binary64) -> Binary64>(
        self,
        x: Binary64,
        ln: L,
        score: Option<Binary64>,
    ) -> bool {
        match self.last_market {
            None => score is None,
            Some((mu, var)) => exists|b: Binary64, m: Binary64|
                {
                    &&& #[trigger] answers(ln, normalizer(self.params.belief_var()), b)
                    &&& #[trigger] answers(ln, normalizer(var), m)
                    &&& score == Some(
                        difference(
                            log_density(x, self.params.belief_mu, self.params.belief_var(), b),
                            log_density(x, mu, var, m),
                        ),
                    )
                },
        }
    }

    /// Whether `densities` are those at the two endpoints of the position, as
    /// `ln` and `exp` answer; there are none without a position.
    pub open spec fn are_densities<L: Fn(Binary64) -> Binary64, E: Fn(Binary64) -> Binary64>(
        self,
        x: Binary64,
        ln: L,
        exp: E,
        densities: Option<(Binary64, Binary64)>,
    ) -> bool {
        match (self.f_orig, self.f_eff) {
            (Some(orig), Some(eff)) => {
                &&& densities matches Some((p, q))
                &&& is_density(x, orig, ln, exp, p)
                &&& is_density(x, eff, ln, exp, q)
            },
            _ => densities is None,
        }
    }

    /// Whether `next` and `actions` are what comes of a settlement at `x`.
    pub open spec fn settles<L: Fn(Binary64) -> Binary64, E: Fn(Binary64) -> Binary64>(
        self,
        x: Binary64,
        ln: L,
        exp: E,
        next: Ledger,
        actions: Seq<StrategyAction>,
    ) -> bool {
        &&& actions.len() == 0
        &&& exists|score: Option<Binary64>, densities: Option<(Binary64, Binary64)>|
            {
                &&& #[trigger] self.is_score(x, ln, score)
                &&& #[trigger] self.are_densities(x, ln, exp, densities)
                &&& next == self.after_settlement(score, densities)
            }
    }

    /// Whether `next` and `actions` are what comes of another event in a normal
    /// market.
    pub open spec fn quotes<L: Fn(Binary64) -> Binary64>(
        self,
        event: MarketEvent,
        market: NormalDistribution,
        ln: L,
        next: Ledger,
        actions: Seq<StrategyAction>,
    ) -> bool {
        let mu = approximation(market.mean);
        let var = approximation(market.variance);
        exists|b: Binary64, m: Binary64|
            {
                let kl = divergence(self.params.belief_mu, self.params.belief_var(), mu, var, b, m);
                &&& #[trigger] answers(ln, self.params.belief_var(), b)
                &&& #[trigger] answers(ln, var, m)
                &&& next == self.after_quote(event, mu, var, kl)
                &&& actions == self.asks(event, kl)
            }
    }

    /// Whether `next` and `actions` are what comes of `event` in the market
    /// `state`.
    pub open spec fn steps<L: Fn(Binary64) -> Binary64, E: Fn(Binary64) -> Binary64>(
        self,
        state: MarketState,
        event: MarketEvent,
        ln: L,
        exp: E,
        next: Ledger,
        actions: Seq<StrategyAction>,
    ) -> bool {
        match event {
            MarketEvent::Settle { x_star } => self.settles(x_star, ln, exp, next, actions),
            _ => match state.distribution {
                SimDistribution::Normal(market) => self.quotes(event, market, ln, next, actions),
                _ => next == self.after_other() && actions.len() == 0,
            },
        }
    }
}

impl View for BayesianEdgeStrategy {
    type V = Ledger;

    open spec fn view(&self) -> Ledger {
        Ledger {
            params: self.params,
            decisions: self.decisions@,
            realized_log_score: self.realized_log_score,
            deadeye_payout: self.deadeye_payout,
            payout_breakdown: self.payout_breakdown,
            last_market: self.last_market,
            f_orig: self.f_orig,
            f_eff: self.f_eff,
            event_counter: self.event_counter as nat,
        }
    }
}

impl BayesianEdgeStrategy {
    /// A strategy that has seen nothing.
    pub fn new(params: EdgeParams) -> (s: Self)
        ensures
            s@ == Ledger::fresh(params),
    {
        Self {
            params,
            decisions: Vec::new(),
            realized_log_score: None,
            deadeye_payout: None,
            payout_breakdown: None,
            last_market: None,
            f_orig: None,
            f_eff: None,
            event_counter: 0,
        }
    }

    /// The belief as a distribution to move the market to.
    pub fn build_candidate(&self) -> (r: Result<NormalDistribution, NormalError>)
        ensures
            r == self@.params.candidate(),
    {
        let sigma: Binary64 = self.params.belief_sigma;
        NormalDistribution::from_moments(self.params.belief_mu, sigma.times(sigma))
    }

    /// Whether the position ends somewhere else than at the belief.
    fn has_moved(&self, belief_var: Binary64) -> (r: bool)
        requires
            belief_var == self@.params.belief_var(),
        ensures
            r == self@.belief_moved(),
    {
        match self.f_eff {
            None => true,
            Some((mu, var)) => !(mu.equals(self.params.belief_mu) && var.equals(belief_var)),
        }
    }

    /// Takes note of an event that is no settlement, in a normal market at
    /// `(market_mu, market_var)` from which the belief diverges by `kl`, and says
    /// what to do.
    pub fn on_quote(
        &mut self,
        event: &MarketEvent,
        market_mu: Binary64,
        market_var: Binary64,
        kl: Binary64,
    ) -> (actions: Vec<StrategyAction>)
        requires
            old(self)@.event_counter < usize::MAX,
        ensures
            final(self)@ == old(self)@.after_quote(*event, market_mu, market_var, kl),
            actions@ == old(self)@.asks(*event, kl),
    {
        let idx: usize = self.event_counter;
        self.event_counter = idx + 1;
        let is_trade: bool = match event {
            MarketEvent::Trade => true,
            _ => false,
        };
        if is_trade {
            self.last_market = Some((market_mu, market_var));
        }
        let belief_var: Binary64 = self.params.belief_sigma.times(self.params.belief_sigma);
        let should_trade: bool = is_trade && kl.exceeds(self.params.edge_threshold) && self.has_moved(
            belief_var,
        );
        self.decisions.push(
            Decision {
                event_idx: idx,
                market_mu,
                market_sigma: market_var.sqrt(),
                kl,
                traded: should_trade,
            },
        );
        let mut actions: Vec<StrategyAction> = Vec::new();
        if should_trade {
            match self.build_candidate() {
                Ok(candidate) => {
                    if self.f_orig.is_none() {
                        self.f_orig = Some((market_mu, market_var));
                    }
                    self.f_eff = Some((self.params.belief_mu, belief_var));
                    actions.push(StrategyAction::Trade { candidate });
                },
                Err(_) => {},
            }
        }
        actions
    }

    /// Takes note of a settlement, given the log-score and the densities at the
    /// two endpoints of the position, where there are any.
    pub fn on_settlement(&mut self, score: Option<Binary64>, densities: Option<(Binary64, Binary64)>)
        requires
            old(self)@.event_counter < usize::MAX,
        ensures
            final(self)@ == old(self)@.after_settlement(score, densities),
    {
        self.event_counter = self.event_counter + 1;
        if score.is_some() {
            self.realized_log_score = score;
        }
        if let Some((orig, eff)) = densities {
            self.payout_breakdown = densities;
            self.deadeye_payout = Some(eff.minus(orig));
        }
    }

    /// The log-density at `x` of the normal distribution with the mean and
    /// variance `at`.
    fn log_pdf_at<L: Fn(Binary64) -> Binary64>(x: Binary64, at: (Binary64, Binary64), ln: &L) -> (r: Binary64)
        requires
            forall|v: Binary64| call_requires(*ln, (v,)),
        ensures
            exists|l: Binary64| #[trigger] answers(*ln, normalizer(at.1), l) && r == log_density(x, at.0, at.1, l),
    {
        let l: Binary64 = ln(log_pdf_normalizer(at.1));
        assert(answers(*ln, normalizer(at.1), l));
        normal_log_pdf(x, at.0, at.1, l)
    }

    /// The density at `x` of the normal distribution with the mean and variance
    /// `at`.
    fn pdf_at<L: Fn(Binary64) -> Binary64, E: Fn(Binary64) -> Binary64>(
        x: Binary64,
        at: (Binary64, Binary64),
        ln: &L,
        exp: &E,
    ) -> (d: Binary64)
        requires
            forall|v: Binary64| call_requires(*ln, (v,)),
            forall|v: Binary64| call_requires(*exp, (v,)),
        ensures
            is_density(x, at, *ln, *exp, d),
    {
        let log: Binary64 = Self::log_pdf_at(x, at, ln);
        let d: Binary64 = exp(log);
        assert(answers(*exp, log, d));
        d
    }

    /// Inspects the market after `event` and says what to do. The natural
    /// logarithm and the exponential function are the caller's.
    pub fn on_event<L: Fn(Binary64) -> Binary64, E: Fn(Binary64) -> Binary64>(
        &mut self,
        state: &MarketState,
        event: &MarketEvent,
        ln: &L,
        exp: &E,
    ) -> (actions: Vec<StrategyAction>)
        requires
            old(self)@.event_counter < usize::MAX,
            forall|v: Binary64| call_requires(*ln, (v,)),
            forall|v: Binary64| call_requires(*exp, (v,)),
        ensures
            old(self)@.steps(*state, *event, *ln, *exp, final(self)@, actions@),
    {
        let ghost before = self@;
        let belief_var: Binary64 = self.params.belief_sigma.times(self.params.belief_sigma);
        let belief: (Binary64, Binary64) = (self.params.belief_mu, belief_var);
        if let MarketEvent::Settle { x_star } = event {
            let score: Option<Binary64> = match self.last_market {
                Some(market) => {
                    let lp_belief: Binary64 = Self::log_pdf_at(*x_star, belief, ln);
                    let lp_market: Binary64 = Self::log_pdf_at(*x_star, market, ln);
                    let score: Binary64 = lp_belief.minus(lp_market);
                    proof {
                        let b = choose|l: Binary64|
                            #[trigger] answers(*ln, normalizer(belief.1), l) && lp_belief == log_density(
                                *x_star,
                                belief.0,
                                belief.1,
                                l,
                            );
                        let m = choose|l: Binary64|
                            #[trigger] answers(*ln, normalizer(market.1), l) && lp_market == log_density(
                                *x_star,
                                market.0,
                                market.1,
                                l,
                            );
                        assert(answers(*ln, normalizer(before.params.belief_var()), b));
                        assert(answers(*ln, normalizer(market.1), m));
                        assert(before.is_score(*x_star, *ln, Some(score)));
                    }
                    Some(score)
                },
                None => None,
            };
            let densities: Option<(Binary64, Binary64)> = match (self.f_orig, self.f_eff) {
                (Some(orig), Some(eff)) => {
                    let pdf_orig: Binary64 = Self::pdf_at(*x_star, orig, ln, exp);
                    let pdf_eff: Binary64 = Self::pdf_at(*x_star, eff, ln, exp);
                    Some((pdf_orig, pdf_eff))
                },
                _ => None,
            };
            assert(before.is_score(*x_star, *ln, score));
            assert(before.are_densities(*x_star, *ln, *exp, densities));
            self.on_settlement(score, densities);
            return Vec::new();
        }
        let market: NormalDistribution = match state.distribution {
            SimDistribution::Normal(market) => market,
            _ => {
                self.event_counter = self.event_counter + 1;
                return Vec::new();
            },
        };
        let market_mu: Binary64 = market.mean.to_binary64();
        let market_var: Binary64 = market.variance.to_binary64();
        let ln_market: Binary64 = ln(market_var);
        let ln_belief: Binary64 = ln(belief_var);
        assert(answers(*ln, belief_var, ln_belief));
        assert(answers(*ln, market_var, ln_market));
        let kl: Binary64 = divergence_from(
            self.params.belief_mu,
            belief_var,
            market_mu,
            market_var,
            ln_belief,
            ln_market,
        );
        self.on_quote(event, market_mu, market_var, kl)
    }
}

} // verus!
