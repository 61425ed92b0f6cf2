//! Synthetic market timelines.
//!
//! A timeline is a run of trades whose mean and standard deviation drift from a
//! first consensus toward a target, with a bounded jitter that fades out,
//! followed by a settlement that reveals the outcome.

use vstd::prelude::*;
use vstd::arithmetic::power2::*;
use crate::binary64::{
    difference, distance, greater, law_difference_with_itself, law_product_exact,
    law_quotient_exact, law_sum_exact, law_whole_exact, lemma_rounded_max, maximum, not_a_number,
    opposite, product, quotient, ratio, signed, sum, unsigned, whole, Binary64,
};
use crate::gaussian::{half, squared};
use crate::market::{normal, MarketState, NormalDistribution, NormalError, SimDistribution};
use crate::rounding::{
    law_rounding_is_monotonic, lemma_rounded_exact, lemma_rounded_scale, lemma_units_increase,
    rounded, units,
};
use crate::sq128::{approximation, law_positive_stays_positive, lemma_truncated_magnitude};

verus! {

/// What a timeline looks like.
#[derive(Debug, Clone, Copy, PartialEq, Eq, Structural)]
pub struct TimelineSpec {
    /// The mean of the first consensus.
    pub initial_mu: Binary64,
    /// The standard deviation of the first consensus.
    pub initial_sigma: Binary64,
    /// The mean that the consensus drifts toward: as a rule a biased estimate of
    /// the truth.
    pub market_target_mu: Binary64,
    /// The standard deviation that the consensus drifts toward.
    pub market_target_sigma: Binary64,
    /// The outcome that the settlement reveals.
    pub truth_mu: Binary64,
    /// The number of trades.
    pub steps: usize,
    /// How far the mean is off the drift at first, up and down in turn.
    pub jitter: Binary64,
}

/// An event of a timeline.
#[derive(Debug, Clone, Copy, PartialEq, Eq, Structural)]
pub enum TimelineEvent {
    /// A trader moves the market to `candidate`.
    Trade {
        /// The number of the trader.
        trader: u64,
        /// The distribution that the market is moved to.
        candidate: NormalDistribution,
    },
    /// The outcome is revealed.
    Settle {
        /// The realized outcome.
        x_star: Binary64,
    },
}

/// A market and what will happen in it.
pub struct Timeline {
    /// The market before the first event.
    pub initial_state: MarketState,
    /// The events, in order.
    pub events: Vec<TimelineEvent>,
}

/// One.
pub open spec fn one() -> Binary64 {
    Binary64 { bits: 0x3ff0_0000_0000_0000 }
}

impl TimelineSpec {
    /// How much of the drift is done at trade `i`: `(i + 1) / steps`.
    pub open spec fn progress(self, i: int) -> Binary64 {
        quotient(sum(whole(i as nat), one()), whole(self.steps as nat))
    }

    /// The jitter of trade `i`: up on even trades and down on odd ones.
    pub open spec fn wave(self, i: int) -> Binary64 {
        if i % 2 == 0 {
            self.jitter
        } else {
            opposite(self.jitter)
        }
    }

    /// The mean at trade `i`: `initial + (target - initial) * t + wave * (1 - t)`
    /// where `t` is the progress, rounded after each operation.
    pub open spec fn mu_at(self, i: int) -> Binary64 {
        let t = self.progress(i);
        sum(
            sum(self.initial_mu, product(difference(self.market_target_mu, self.initial_mu), t)),
            product(self.wave(i), difference(one(), t)),
        )
    }

    /// The standard deviation at trade `i`: `initial + (target - initial) * t`,
    /// rounded after each operation, but one half at least.
    pub open spec fn sigma_at(self, i: int) -> Binary64 {
        let t = self.progress(i);
        maximum(
            sum(
                self.initial_sigma,
                product(difference(self.market_target_sigma, self.initial_sigma), t),
            ),
            half(),
        )
    }

    /// The distribution that the market starts with.
    pub open spec fn initial(self) -> Result<NormalDistribution, NormalError> {
        normal(self.initial_mu, squared(self.initial_sigma))
    }

    /// The distribution that trade `i` moves the market to.
    pub open spec fn candidate_at(self, i: int) -> Result<NormalDistribution, NormalError> {
        normal(self.mu_at(i), squared(self.sigma_at(i)))
    }

    /// Whether all distributions up to that of trade `n`, exclusively, can be
    /// written in fixed point.
    pub open spec fn holds_up_to(self, n: int) -> bool {
        &&& self.initial() is Ok
        &&& forall|i: int| 0 <= i < n ==> (#[trigger] self.candidate_at(i)) is Ok
    }

    /// Whether `e` is the first error on the way through the timeline.
    pub open spec fn first_error(self, e: NormalError) -> bool {
        ||| self.initial() == Err::<NormalDistribution, NormalError>(e)
        ||| exists|i: int|
            0 <= i < self.steps && self.holds_up_to(i) && #[trigger] self.candidate_at(i) == Err::<
                NormalDistribution,
                NormalError,
            >(e)
    }

    /// The market before the first event.
    pub open spec fn initial_state(self) -> MarketState {
        MarketState {
            distribution: SimDistribution::Normal(self.initial()->Ok_0),
            backing: whole(1000),
            lp_shares: whole(1000),
            settlement_x_star: None,
        }
    }

    /// The event `i`: a trade by trader `i + 1`, or, after all trades, the
    /// settlement.
    pub open spec fn event_at(self, i: int) -> TimelineEvent {
        if i < self.steps {
            TimelineEvent::Trade { trader: (i + 1) as u64, candidate: self.candidate_at(i)->Ok_0 }
        } else {
            TimelineEvent::Settle { x_star: self.truth_mu }
        }
    }

    /// The events, in order.
    pub open spec fn events(self) -> Seq<TimelineEvent> {
        Seq::new((self.steps + 1) as nat, |i: int| self.event_at(i))
    }
}

impl Default for TimelineSpec {
    /// A thirty-step drift from `N(45, 8)` toward `N(48.5, 5)`, which
    /// underestimates the truth of 50 by 1.5, with a jitter of 0.4.
    fn default() -> (spec: Self)
        ensures
            spec.initial_mu == ratio(45, 1),
            spec.initial_sigma == ratio(8, 1),
            spec.market_target_mu == ratio(97, 2),
            spec.market_target_sigma == ratio(5, 1),
            spec.truth_mu == ratio(50, 1),
            spec.steps == 30,
            spec.jitter == ratio(2, 5),
    {
        Self {
            initial_mu: Binary64::from_ratio(45, 1),
            initial_sigma: Binary64::from_ratio(8, 1),
            market_target_mu: Binary64::from_ratio(97, 2),
            market_target_sigma: Binary64::from_ratio(5, 1),
            truth_mu: Binary64::from_ratio(50, 1),
            steps: 30,
            jitter: Binary64::from_ratio(2, 5),
        }
    }
}

/// The normal distribution of the given mean and standard deviation.
pub fn make_normal(mu: Binary64, sigma: Binary64) -> (r: Result<NormalDistribution, NormalError>)
    ensures
        r == normal(mu, squared(sigma)),
{
    NormalDistribution::from_moments(mu, sigma.times(sigma))
}

/// Builds the timeline that `spec` describes, or gives the first error on the
/// way.
pub fn build(spec: TimelineSpec) -> (r: Result<Timeline, NormalError>)
    requires
        spec.steps < usize::MAX,
    ensures
        match r {
            Ok(timeline) => {
                &&& spec.holds_up_to(spec.steps as int)
                &&& timeline.initial_state == spec.initial_state()
                &&& timeline.events@ == spec.events()
            },
            Err(e) => spec.first_error(e),
        },
{
    let initial: NormalDistribution = match make_normal(spec.initial_mu, spec.initial_sigma) {
        Ok(d) => d,
        Err(e) => {
            return Err(e);
        },
    };
    let initial_state: MarketState = MarketState {
        distribution: SimDistribution::Normal(initial),
        backing: Binary64::from_u64(1000),
        lp_shares: Binary64::from_u64(1000),
        settlement_x_star: None,
    };
    let one: Binary64 = Binary64 { bits: 0x3ff0_0000_0000_0000 };
    let half: Binary64 = Binary64 { bits: 0x3fe0_0000_0000_0000 };
    let mut events: Vec<TimelineEvent> = Vec::new();
    let mut i: usize = 0;
    while i < spec.steps
        invariant
            i <= spec.steps < usize::MAX,
            one == self::one(),
            half == crate::gaussian::half(),
            spec.holds_up_to(i as int),
            events@ == Seq::new(i as nat, |j: int| spec.event_at(j)),
        decreases spec.steps - i,
    {
        let t: Binary64 = Binary64::from_u64(i as u64).plus(one).over(
            Binary64::from_u64(spec.steps as u64),
        );
        let wave: Binary64 = if i % 2 == 0 {
            spec.jitter
        } else {
            spec.jitter.negated()
        };
        let drift: Binary64 = spec.market_target_mu.minus(spec.initial_mu).times(t);
        let mu: Binary64 = spec.initial_mu.plus(drift).plus(wave.times(one.minus(t)));
        let sigma: Binary64 = spec.initial_sigma.plus(
            spec.market_target_sigma.minus(spec.initial_sigma).times(t),
        );
        assert(mu == spec.mu_at(i as int));
        match make_normal(mu, sigma.max(half)) {
            Ok(candidate) => {
                assert(spec.candidate_at(i as int) is Ok);
                events.push(TimelineEvent::Trade { trader: i as u64 + 1, candidate });
            },
            Err(e) => {
                assert(spec.candidate_at(i as int) == Err::<NormalDistribution, NormalError>(e));
                return Err(e);
            },
        }
        i = i + 1;
        assert(events@ == Seq::new(i as nat, |j: int| spec.event_at(j)));
    }
    events.push(TimelineEvent::Settle { x_star: spec.truth_mu });
    assert(events@ == spec.events());
    Ok(Timeline { initial_state, events })
}

/// The last trade completes the drift: its progress is one, exactly, and nothing
/// is left of the jitter. The mean is then `initial + (target - initial)`, up to
/// the sign of a zero, and so is the standard deviation, but one half at least.
pub proof fn law_drift_is_completed(spec: TimelineSpec)
    requires
        0 < spec.steps < 0x0020_0000_0000_0000,
    ensures
        spec.progress(spec.steps - 1) == one(),
        spec.jitter.is_finite() ==> {
            let end = sum(spec.initial_mu, difference(spec.market_target_mu, spec.initial_mu));
            let mu = spec.mu_at(spec.steps - 1);
            mu == end || (mu.is_zero() && end.is_zero())
        },
        spec.sigma_at(spec.steps - 1) == maximum(
            sum(spec.initial_sigma, difference(spec.market_target_sigma, spec.initial_sigma)),
            half(),
        ),
{
    let n = spec.steps as nat;
    let m = (n - 1) as nat;
    let k = pow2(1074);
    law_whole_exact(m);
    law_whole_exact(n);
    lemma_one();
    lemma_pow2_pos(1074);
    assert(m * k + k == n * k) by (nonlinear_arith)
        requires
            n == m + 1,
    ;
    assert(n * k > 0) by (nonlinear_arith)
        requires
            n > 0,
            k > 0,
    ;
    law_sum_exact(whole(m), one(), whole(n));
    assert((n * k) * k == k * (n * k)) by (nonlinear_arith);
    assert(!whole(n).is_zero());
    law_quotient_exact(whole(n), whole(n), one());
    law_difference_with_itself(one());
    lemma_difference_times_one(spec.market_target_mu, spec.initial_mu);
    lemma_difference_times_one(spec.market_target_sigma, spec.initial_sigma);
    if spec.jitter.is_finite() {
        let wave = spec.wave(m as int);
        let rest = signed(wave.is_negative(), 0);
        assert(units(wave.magnitude()) * 0 == 0 * k) by (nonlinear_arith);
        law_product_exact(wave, signed(false, 0), rest);
        lemma_sum_with_zero(spec.initial_mu, difference(spec.market_target_mu, spec.initial_mu), rest);
    }
}

/// The progress never goes back, and never beyond one.
pub proof fn law_progress_grows(spec: TimelineSpec, i: int, j: int)
    requires
        0 <= i <= j < spec.steps < 0x0020_0000_0000_0000,
    ensures
        unsigned(spec.progress(i)),
        spec.progress(i).magnitude() <= spec.progress(j).magnitude() <= one().magnitude(),
        !greater(spec.progress(i), spec.progress(j)),
        !greater(spec.progress(j), one()),
{
    let n = spec.steps as nat;
    let k = pow2(1074);
    let (a, b) = ((i + 1) as nat, (j + 1) as nat);
    lemma_progress(spec, i);
    lemma_progress(spec, j);
    lemma_progress(spec, n - 1);
    law_drift_is_completed(spec);
    lemma_pow2_pos(1074);
    assert((a * k) * k <= (b * k) * k <= (n * k) * k) by (nonlinear_arith)
        requires
            a <= b <= n,
    ;
    assert(n * k > 0) by (nonlinear_arith)
        requires
            n > 0,
            k > 0,
    ;
    law_rounding_is_monotonic((a * k) * k, (b * k) * k, n * k);
    law_rounding_is_monotonic((b * k) * k, (n * k) * k, n * k);
    reveal(greater);
    let (x, y, z) = (spec.progress(i).magnitude(), spec.progress(j).magnitude(), one().magnitude());
    if x < y {
        lemma_units_increase(x, y);
    }
    if y < z {
        lemma_units_increase(y, z);
    }
}

/// The progress at trade `i` is `i + 1` over the number of trades, rounded once.
pub proof fn lemma_progress(spec: TimelineSpec, i: int)
    requires
        0 <= i < spec.steps < 0x0020_0000_0000_0000,
    ensures
        spec.progress(i) == signed(
            false,
            rounded(((i + 1) as nat * pow2(1074)) * pow2(1074), spec.steps as nat * pow2(1074)),
        ),
        unsigned(spec.progress(i)),
{
    let n = spec.steps as nat;
    let (c, a) = (i as nat, (i + 1) as nat);
    let k = pow2(1074);
    law_whole_exact(c);
    law_whole_exact(a);
    law_whole_exact(n);
    lemma_one();
    lemma_pow2_pos(1074);
    assert(c * k + k == a * k && a * k > 0 && n * k > 0) by (nonlinear_arith)
        requires
            a == c + 1,
            n > 0,
            k > 0,
    ;
    law_sum_exact(whole(c), one(), whole(a));
    assert(!whole(n).is_zero());
    reveal(quotient);
    lemma_rounded_max((a * k) * k, n * k);
}

/// The jitter stays within its bound: what a trade is off the drift by is never
/// more than the jitter of the timeline.
pub proof fn law_jitter_is_bounded(spec: TimelineSpec, i: int)
    requires
        0 <= i < spec.steps < 0x0020_0000_0000_0000,
        spec.jitter.is_finite(),
    ensures
        product(spec.wave(i), difference(one(), spec.progress(i))).is_finite(),
        product(spec.wave(i), difference(one(), spec.progress(i))).magnitude() <= spec.jitter.magnitude(),
{
    let k = pow2(1074);
    let t = spec.progress(i);
    let rest = difference(one(), t);
    let w = spec.wave(i);
    let m = spec.jitter.magnitude();
    law_progress_grows(spec, i, i);
    lemma_one();
    lemma_pow2_pos(1074);
    let v = units(t.magnitude());
    if t.magnitude() < one().magnitude() {
        lemma_units_increase(t.magnitude(), one().magnitude());
    }
    // What is left of the drift is no more than one.
    assert(rest.is_finite() && rest.magnitude() <= one().magnitude()) by {
        reveal(sum);
        lemma_rounded_exact(one().magnitude());
        law_rounding_is_monotonic((k - v) as nat, k, 1);
    }
    let r = units(rest.magnitude());
    if rest.magnitude() < one().magnitude() {
        lemma_units_increase(rest.magnitude(), one().magnitude());
    }
    let u = units(m);
    assert(u * r <= u * k) by (nonlinear_arith)
        requires
            r <= k,
    ;
    assert(w.magnitude() == m);
    reveal(product);
    law_rounding_is_monotonic(u * r, u * k, k);
    lemma_rounded_scale(u, 1, k);
    assert(1 * k == k);
    lemma_rounded_exact(m);
}

/// Multiplying by one changes no difference.
proof fn lemma_difference_times_one(a: Binary64, b: Binary64)
    ensures
        product(difference(a, b), one()) == difference(a, b),
{
    let d = difference(a, b);
    lemma_one();
    assert(d.is_nan() ==> d == not_a_number()) by {
        reveal(sum);
        lemma_rounded_max(distance(a.value() + opposite(b).value()), 1);
    }
    if d.is_finite() {
        law_product_exact(d, one(), d);
    } else {
        reveal(product);
    }
}

/// Adding a zero changes a sum in the sign of a zero at most.
proof fn lemma_sum_with_zero(a: Binary64, b: Binary64, zero: Binary64)
    requires
        zero.is_zero(),
    ensures
        sum(sum(a, b), zero) == sum(a, b) || (sum(sum(a, b), zero).is_zero() && sum(a, b).is_zero()),
{
    reveal(sum);
    let s = sum(a, b);
    lemma_rounded_max(distance(a.value() + b.value()), 1);
    if s.is_finite() {
        lemma_rounded_exact(s.magnitude());
        if s.magnitude() > 0 {
            lemma_units_increase(0, s.magnitude());
        }
    }
}

/// One is `2^1074` units.
pub proof fn lemma_one()
    ensures
        one().is_finite(),
        !one().is_negative(),
        units(one().magnitude()) == pow2(1074),
{
    lemma2_to64_rest();
    lemma_pow2_adds(52, 1022);
}

/// No quote of a timeline is degenerate: its standard deviation is one half at
/// least, its variance one quarter at least, and the strategies take the
/// variance for a number above zero.
pub proof fn law_quotes_are_not_degenerate(spec: TimelineSpec, i: int)
    ensures
        unsigned(spec.sigma_at(i)),
        !greater(half(), spec.sigma_at(i)),
        spec.candidate_at(i) matches Ok(candidate) ==> {
            &&& !candidate.variance.neg
            &&& candidate.variance.magnitude() >= 0x4000_0000_0000_0000_0000_0000_0000_0000
            &&& greater(approximation(candidate.variance), signed(false, 0))
        },
{
    let sigma = spec.sigma_at(i);
    let var = squared(sigma);
    let h = half().magnitude();
    let quarter: nat = 0x3fd0_0000_0000_0000;
    let k = pow2(1074);
    lemma_pow2_pos(1074);
    lemma2_to64_rest();
    lemma_pow2_adds(52, 1020);
    lemma_pow2_adds(52, 1021);
    lemma_pow2_adds(1073, 1073);
    lemma_pow2_adds(1072, 1074);
    assert(units(h) == pow2(1073));
    assert(units(quarter) == pow2(1072));
    assert(unsigned(sigma) && sigma.magnitude() >= h && !greater(half(), sigma)) by {
        reveal(greater);
        let x = sum(
            spec.initial_sigma,
            product(difference(spec.market_target_sigma, spec.initial_sigma), spec.progress(i)),
        );
        if x.magnitude() < h {
            lemma_units_increase(x.magnitude(), h);
        }
        lemma_units_increase(0, h);
    }
    if let Ok(candidate) = spec.candidate_at(i) {
        assert(sigma.is_finite()) by {
            reveal(product);
        }
        let u = units(sigma.magnitude());
        if sigma.magnitude() > h {
            lemma_units_increase(h, sigma.magnitude());
        }
        assert(pow2(1073) * pow2(1073) <= u * u) by (nonlinear_arith)
            requires
                pow2(1073) <= u,
        ;
        assert(var.is_finite() && !var.is_negative() && var.magnitude() >= quarter) by {
            reveal(product);
            lemma_rounded_scale(pow2(1072), 1, k);
            assert(1 * k == k);
            lemma_rounded_exact(quarter);
            law_rounding_is_monotonic(pow2(1072) * k, u * u, k);
            lemma_rounded_max(u * u, k);
        }
        if var.magnitude() > quarter {
            lemma_units_increase(quarter, var.magnitude());
        }
        lemma_truncated_magnitude(var);
        let v = units(var.magnitude());
        let p = pow2(128);
        lemma_pow2_pos(128);
        lemma_pow2_adds(126, 1074);
        lemma_pow2_adds(1072, 128);
        lemma_pow2_adds(62, 64);
        lemma2_to64();
        assert(pow2(126) * k <= v * p) by (nonlinear_arith)
            requires
                pow2(126) * k == pow2(1072) * p,
                pow2(1072) <= v,
        ;
        vstd::arithmetic::div_mod::lemma_div_is_ordered(
            (pow2(126) * k) as int,
            (v * p) as int,
            k as int,
        );
        assert(pow2(126) * k == k * pow2(126)) by (nonlinear_arith);
        vstd::arithmetic::div_mod::lemma_div_multiples_vanish(pow2(126) as int, k as int);
        assert(pow2(126) == 0x4000_0000_0000_0000_0000_0000_0000_0000) by (nonlinear_arith)
            requires
                pow2(126) == pow2(62) * pow2(64),
                pow2(62) == 0x4000_0000_0000_0000,
                pow2(64) == 0x1_0000_0000_0000_0000,
        ;
        law_positive_stays_positive(candidate.variance);
    }
}

} // verus!
