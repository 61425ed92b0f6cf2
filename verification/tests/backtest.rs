use deadeye_strat_backtest::binary64::Binary64;
use deadeye_strat_backtest::market::{
    MarketEvent, MarketState, NormalDistribution, NormalError, SimDistribution, StrategyAction,
};
use deadeye_strat_backtest::report::{
    contenders, find_label, mean_kl, payout_in_thousandths, trace_window,
};
use deadeye_strat_backtest::sq128::{FixedPointError, Sq128};
use deadeye_strat_backtest::strategy::BayesianEdgeStrategy;
use deadeye_strat_backtest::synthetic::{build, TimelineEvent, TimelineSpec};

fn of(x: f64) -> Binary64 {
    Binary64 { bits: x.to_bits() }
}

fn float(x: Binary64) -> f64 {
    f64::from_bits(x.bits)
}

fn ln(x: Binary64) -> Binary64 {
    of(float(x).ln())
}

fn exp(x: Binary64) -> Binary64 {
    of(float(x).exp())
}

fn own(q: deadeye_sdk::core::Sq128) -> Sq128 {
    let raw = q.to_raw();
    Sq128 { limb0: raw.limb0, limb1: raw.limb1, limb2: raw.limb2, limb3: raw.limb3, neg: raw.neg }
}

fn outside(d: NormalDistribution) -> deadeye_sdk::core::NormalDistribution {
    let raw = |q: Sq128| deadeye_sdk::core::Sq128Raw {
        limb0: q.limb0,
        limb1: q.limb1,
        limb2: q.limb2,
        limb3: q.limb3,
        neg: q.neg,
    };
    deadeye_sdk::core::NormalDistribution::from_raw(deadeye_sdk::core::NormalDistributionRaw {
        mean: raw(d.mean),
        variance: raw(d.variance),
        sigma: raw(d.sigma),
    })
    .unwrap()
}

/// Runs a strategy of the library in the engine of the SDK.
struct Adapter<'a>(&'a mut BayesianEdgeStrategy);

impl deadeye_sdk::Strategy for Adapter<'_> {
    fn on_event(
        &mut self,
        state: &deadeye_sdk::MarketState,
        event: &deadeye_sdk::MarketEvent,
    ) -> Vec<deadeye_sdk::StrategyAction> {
        let distribution = match &state.distribution {
            deadeye_sdk::SimDistribution::Normal(n) => SimDistribution::Normal(NormalDistribution {
                mean: own(deadeye_sdk::core::Distribution::mean(n)),
                variance: own(deadeye_sdk::core::Distribution::variance(n)),
                sigma: own(deadeye_sdk::core::Distribution::sigma(n)),
            }),
            _ => SimDistribution::Lognormal,
        };
        let state = MarketState {
            distribution,
            backing: of(state.backing),
            lp_shares: of(state.lp_shares),
            settlement_x_star: state.settlement_x_star.map(of),
        };
        let event = match event {
            deadeye_sdk::MarketEvent::Trade { .. } => MarketEvent::Trade,
            deadeye_sdk::MarketEvent::AddLiquidity { .. } => MarketEvent::AddLiquidity,
            deadeye_sdk::MarketEvent::RemoveLiquidity { .. } => MarketEvent::RemoveLiquidity,
            deadeye_sdk::MarketEvent::Settle { x_star } => {
                MarketEvent::Settle { x_star: of(*x_star) }
            }
        };
        self.0
            .on_event(&state, &event, &ln, &exp)
            .into_iter()
            .map(|action| match action {
                StrategyAction::Trade { candidate } => deadeye_sdk::StrategyAction::Trade {
                    candidate: deadeye_sdk::EventDistribution::Normal(outside(candidate)),
                },
            })
            .collect()
    }
}

fn engine(spec: TimelineSpec) -> deadeye_sdk::BacktestEngine {
    let timeline = build(spec).unwrap();
    let SimDistribution::Normal(initial) = timeline.initial_state.distribution else {
        panic!("a timeline starts with a normal market");
    };
    let state = deadeye_sdk::MarketState {
        distribution: deadeye_sdk::SimDistribution::Normal(outside(initial)),
        backing: float(timeline.initial_state.backing),
        lp_shares: float(timeline.initial_state.lp_shares),
        settlement_x_star: timeline.initial_state.settlement_x_star.map(float),
    };
    let events = timeline
        .events
        .into_iter()
        .map(|event| match event {
            TimelineEvent::Trade { trader, candidate } => deadeye_sdk::MarketEvent::Trade {
                trader: deadeye_sdk::starknet::Felt::from(trader),
                candidate: deadeye_sdk::EventDistribution::Normal(outside(candidate)),
            },
            TimelineEvent::Settle { x_star } => {
                deadeye_sdk::MarketEvent::Settle { x_star: float(x_star) }
            }
        })
        .collect();
    deadeye_sdk::BacktestEngine::from_indexer_events(events, state)
}

/// The rows of the sample run: label, trades, collateral, mean divergence,
/// log-score and position value.
#[test]
fn sample_run_gives_the_documented_table() {
    let spec = TimelineSpec::default();
    let engine = engine(spec);
    let rows: Vec<String> = contenders(spec.truth_mu)
        .into_iter()
        .map(|params| {
            let mut strategy = BayesianEdgeStrategy::new(params);
            let result = engine.run(Adapter(&mut strategy));
            format!(
                "{} {} {:+.3} {:.4} {:+.4} {:+.3}",
                params.label,
                result.trades_executed,
                result.final_pnl,
                float(mean_kl(&strategy.decisions)),
                float(strategy.realized_log_score.unwrap()),
                float(payout_in_thousandths(strategy.deadeye_payout.unwrap())),
            )
        })
        .collect();
    assert_eq!(
        rows,
        vec![
            "Informed 1 -0.031 0.2313 +0.2369 +53.720",
            "Oracle (= truth) 1 -0.035 0.2926 +0.2681 +56.789",
            "Wrong-Confident 1 -0.050 2.2395 -11.9442 -42.946",
        ]
    );
}

#[test]
fn default_spec_holds_the_documented_values() {
    let spec = TimelineSpec::default();
    assert_eq!(spec.initial_mu, of(45.0));
    assert_eq!(spec.initial_sigma, of(8.0));
    assert_eq!(spec.market_target_mu, of(48.5));
    assert_eq!(spec.market_target_sigma, of(5.0));
    assert_eq!(spec.truth_mu, of(50.0));
    assert_eq!(spec.steps, 30);
    assert_eq!(spec.jitter, of(0.4));
}

#[test]
fn timeline_is_thirty_trades_and_a_settlement() {
    let spec = TimelineSpec::default();
    let timeline = build(spec).unwrap();
    assert_eq!(timeline.events.len(), 31);
    let (mu0, sigma0, mu1, sigma1, jitter) = (45.0_f64, 8.0_f64, 48.5_f64, 5.0_f64, 0.4_f64);
    for i in 0..30_usize {
        let t = (i as f64 + 1.0) / 30.0;
        let wave = if i % 2 == 0 { jitter } else { -jitter };
        let mu = mu0 + (mu1 - mu0) * t + wave * (1.0 - t);
        let sigma = (sigma0 + (sigma1 - sigma0) * t).max(0.5);
        let want = deadeye_sdk::core::NormalDistribution::from_variance(
            deadeye_sdk::core::Sq128::from_f64(mu).unwrap(),
            deadeye_sdk::core::Sq128::from_f64(sigma * sigma).unwrap(),
        )
        .unwrap();
        let want = NormalDistribution {
            mean: own(deadeye_sdk::core::Distribution::mean(&want)),
            variance: own(deadeye_sdk::core::Distribution::variance(&want)),
            sigma: own(deadeye_sdk::core::Distribution::sigma(&want)),
        };
        assert_eq!(
            timeline.events[i],
            TimelineEvent::Trade { trader: i as u64 + 1, candidate: want }
        );
    }
    assert_eq!(timeline.events[30], TimelineEvent::Settle { x_star: of(50.0) });
    // The last trade is at the target.
    let TimelineEvent::Trade { candidate, .. } = timeline.events[29] else {
        panic!("a trade comes before the settlement");
    };
    assert_eq!(candidate.mean.to_binary64(), of(48.5));
    assert_eq!(candidate.sigma.to_binary64(), of(5.0));
    assert_eq!(timeline.initial_state.backing, of(1000.0));
    assert_eq!(timeline.initial_state.lp_shares, of(1000.0));
    assert_eq!(timeline.initial_state.settlement_x_star, None);
}

#[test]
fn timeline_without_steps_is_only_settled() {
    let timeline = build(TimelineSpec { steps: 0, ..TimelineSpec::default() }).unwrap();
    assert_eq!(timeline.events, vec![TimelineEvent::Settle { x_star: of(50.0) }]);
}

#[test]
fn narrow_quotes_are_widened_to_one_half() {
    let spec = TimelineSpec {
        initial_sigma: of(0.25),
        market_target_sigma: of(-3.0),
        ..TimelineSpec::default()
    };
    for event in build(spec).unwrap().events {
        if let TimelineEvent::Trade { candidate, .. } = event {
            assert_eq!(candidate.sigma.to_binary64(), of(0.5));
            assert_eq!(candidate.variance.to_binary64(), of(0.25));
        }
    }
}

#[test]
fn unrepresentable_timelines_are_refused() {
    let spec = TimelineSpec { initial_mu: of(f64::NAN), ..TimelineSpec::default() };
    assert_eq!(build(spec).err(), Some(NormalError::Mean(FixedPointError::NotFinite)));
    let spec = TimelineSpec { initial_sigma: of(1e20), ..TimelineSpec::default() };
    assert_eq!(build(spec).err(), Some(NormalError::Variance(FixedPointError::Overflow)));
    let spec = TimelineSpec { market_target_mu: of(1e40), ..TimelineSpec::default() };
    assert_eq!(build(spec).err(), Some(NormalError::Mean(FixedPointError::Overflow)));
}

#[test]
fn contenders_hold_the_documented_beliefs() {
    let all = contenders(of(50.0));
    let rows: Vec<(&str, f64, f64, f64)> = all
        .iter()
        .map(|p| (p.label, float(p.belief_mu), float(p.belief_sigma), float(p.edge_threshold)))
        .collect();
    assert_eq!(
        rows,
        vec![
            ("Informed", 49.0, 4.0, 0.05),
            ("Oracle (= truth)", 50.0, 4.0, 0.05),
            ("Wrong-Confident", 35.0, 3.0, 0.05),
        ]
    );
    assert_eq!(find_label(&all, "Informed"), Some(0));
    assert_eq!(find_label(&all, "Wrong-Confident"), Some(2));
    assert_eq!(find_label(&all, "Nobody"), None);
}

#[test]
fn mean_divergence_adds_up_in_order() {
    let spec = TimelineSpec::default();
    let mut strategy = BayesianEdgeStrategy::new(contenders(spec.truth_mu)[0]);
    engine(spec).run(Adapter(&mut strategy));
    let want = strategy.decisions.iter().map(|d| float(d.kl)).sum::<f64>() / 30.0;
    assert_eq!(strategy.decisions.len(), 30);
    assert_eq!(mean_kl(&strategy.decisions), of(want));
    let nothing = Vec::<f64>::new().iter().sum::<f64>() / 1.0;
    assert_eq!(mean_kl(&Vec::new()), of(nothing));
}

#[test]
fn trace_shows_fifteen_rows() {
    assert_eq!(trace_window(0), (0, 0));
    assert_eq!(trace_window(15), (15, 0));
    assert_eq!(trace_window(30), (15, 15));
}

#[test]
fn drift_ends_at_the_target_whatever_the_jitter() {
    for jitter in [0.0, -2.5, 1e6] {
        let spec = TimelineSpec { steps: 7, jitter: of(jitter), ..TimelineSpec::default() };
        let timeline = build(spec).unwrap();
        let TimelineEvent::Trade { candidate, trader } = timeline.events[6] else {
            panic!("a trade comes before the settlement");
        };
        assert_eq!(trader, 7);
        assert_eq!(candidate.mean.to_binary64(), of(48.5));
        assert_eq!(candidate.variance.to_binary64(), of(25.0));
    }
}

#[test]
fn quotes_stay_within_the_jitter_of_the_drift() {
    let spec = TimelineSpec { jitter: of(0.75), ..TimelineSpec::default() };
    for (i, event) in build(spec).unwrap().events.into_iter().enumerate() {
        if let TimelineEvent::Trade { candidate, .. } = event {
            let drift = 45.0 + 3.5 * ((i as f64 + 1.0) / 30.0);
            let off = float(candidate.mean.to_binary64()) - drift;
            assert!(off.abs() <= 0.75);
            assert!(i == 29 || (off > 0.0) == (i % 2 == 0));
        }
    }
}

#[test]
fn timeline_is_recorded_trade_by_trade() {
    let spec = TimelineSpec::default();
    let timeline = build(spec).unwrap();
    for params in contenders(spec.truth_mu) {
        let mut strategy = BayesianEdgeStrategy::new(params);
        engine(spec).run(Adapter(&mut strategy));
        assert_eq!(strategy.decisions.len(), 30);
        for (i, d) in strategy.decisions.iter().enumerate() {
            let TimelineEvent::Trade { candidate, .. } = timeline.events[i] else {
                panic!("trades come first");
            };
            assert_eq!(d.event_idx, i);
            assert_eq!(d.market_mu, candidate.mean.to_binary64());
            assert_eq!(d.market_sigma, candidate.variance.to_binary64().sqrt());
        }
        assert_eq!(strategy.deadeye_payout.is_some(), strategy.decisions.iter().any(|d| d.traded));
    }
}
