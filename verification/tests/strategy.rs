use deadeye_strat_backtest::binary64::Binary64;
use deadeye_strat_backtest::gaussian::{kl_normal, log_pdf_normalizer, normal_log_pdf};
use deadeye_strat_backtest::market::{
    MarketEvent, MarketState, NormalError, SimDistribution, StrategyAction,
};
use deadeye_strat_backtest::sq128::FixedPointError;
use deadeye_strat_backtest::strategy::{BayesianEdgeStrategy, EdgeParams};
use deadeye_strat_backtest::synthetic::make_normal;

fn of(x: f64) -> Binary64 {
    Binary64 { bits: x.to_bits() }
}

fn float(x: Binary64) -> f64 {
    f64::from_bits(x.bits)
}

fn ln(x: Binary64) -> Binary64 {
    of(float(x).ln())
}

fn exp(x: Binary64) -> Binary64 {
    of(float(x).exp())
}

fn kl(mu1: f64, var1: f64, mu2: f64, var2: f64) -> f64 {
    float(kl_normal(of(mu1), of(var1), of(mu2), of(var2), ln(of(var1)), ln(of(var2))))
}

fn log_pdf(x: f64, mu: f64, var: f64) -> f64 {
    let normalizer = log_pdf_normalizer(of(var));
    float(normal_log_pdf(of(x), of(mu), of(var), ln(normalizer)))
}

#[test]
fn kl_is_zero_for_identical_normals() {
    let kl = kl(1.0, 4.0, 1.0, 4.0);
    assert!(kl.abs() < 1e-12, "KL(p,p) must be 0, got {kl}");
}

#[test]
fn kl_is_positive_for_distinct_normals() {
    let kl = kl(1.0, 4.0, 2.0, 4.0);
    assert!(kl > 0.0);
}

#[test]
fn kl_is_asymmetric() {
    let forward = kl(0.0, 1.0, 0.0, 9.0);
    let reverse = kl(0.0, 9.0, 0.0, 1.0);
    assert!((forward - reverse).abs() > 1e-6);
}

#[test]
fn log_pdf_matches_density_at_mean() {
    let var = 4.0_f64;
    let lp = log_pdf(3.0, 3.0, var);
    let expected = -0.5 * (2.0 * std::f64::consts::PI * var).ln();
    assert!((lp - expected).abs() < 1e-12);
}

#[test]
fn kl_of_a_normal_from_itself_is_exactly_zero() {
    for (mu, var) in [(0.0, 1.0), (-3.25, 0.07), (1e10, 1e-300), (49.0, 16.0)] {
        assert_eq!(kl(mu, var, mu, var).to_bits(), 0.0_f64.to_bits());
    }
}

#[test]
fn formulas_agree_with_the_machine() {
    let values = [(49.0, 16.0, 45.2, 60.1), (35.0, 9.0, 48.5, 25.0), (0.1, 0.3, -7.0, 1e-5)];
    for (mu1, var1, mu2, var2) in values {
        let want = 0.5 * (f64::ln(var2) - f64::ln(var1))
            + (var1 + (mu1 - mu2) * (mu1 - mu2)) / (2.0 * var2)
            - 0.5;
        assert_eq!(kl(mu1, var1, mu2, var2).to_bits(), f64::to_bits(want));
        let want = -0.5 * (2.0 * std::f64::consts::PI * var1).ln()
            - (mu2 - mu1) * (mu2 - mu1) / (2.0 * var1);
        assert_eq!(log_pdf(mu2, mu1, var1).to_bits(), f64::to_bits(want));
    }
}

#[test]
fn kl_with_one_variance_is_never_negative() {
    for gap in [0.0, 1e-300, 1e-12, 0.5, 3.0, 1e160, -1e200] {
        assert!(kl(gap, 2.0, 0.0, 2.0) >= 0.0);
    }
}

#[test]
fn kl_is_the_same_with_the_means_exchanged_or_shifted() {
    for (mu1, var1, mu2, var2) in [(49.0, 16.0, 45.25, 64.0), (-0.1, 0.3, 7.7, 1e-5)] {
        let want = kl(mu1, var1, mu2, var2).to_bits();
        assert_eq!(kl(mu2, var1, mu1, var2).to_bits(), want);
    }
    let want = kl(49.0, 16.0, 45.25, 64.0).to_bits();
    assert_eq!(kl(149.0, 16.0, 145.25, 64.0).to_bits(), want);
    // Scaled by two, with the same difference of logarithms.
    let (l1, l2) = (ln(of(16.0)), ln(of(64.0)));
    let scaled = kl_normal(of(98.0), of(64.0), of(90.5), of(256.0), l1, l2);
    assert_eq!(scaled.bits, want);
    let scaled = kl_normal(of(6272.0), of(262144.0), of(5792.0), of(1048576.0), l1, l2);
    assert_eq!(scaled.bits, want);
    // The variances are not interchangeable.
    assert_ne!(kl(49.0, 64.0, 45.25, 16.0).to_bits(), want);
}

#[test]
fn kl_grows_with_the_distance_of_the_means() {
    let means = [45.0, 45.0 + 1e-13, 44.9, 45.5, 43.0, 60.0, -1e9, 1e200];
    for pair in means.windows(2) {
        assert!(kl(pair[0], 16.0, 45.0, 64.0) <= kl(pair[1], 16.0, 45.0, 64.0));
    }
    assert!(kl(60.0, 16.0, 45.0, 64.0) > kl(43.0, 16.0, 45.0, 64.0));
}

#[test]
fn kl_is_not_negative_for_two_variances() {
    for var1 in [0.1, 8.0, 9.5, 15.9, 16.0, 16.1, 25.0, 32.0, 1e6] {
        for mu1 in [45.0, 45.001, 47.0] {
            assert!(kl(mu1, var1, 45.0, 16.0) >= -1e-12);
        }
    }
}

#[test]
fn kl_is_the_expected_gain_in_log_density() {
    for (mu1, var1, mu2, var2) in [(49.0, 16.0, 45.2, 60.1), (35.0, 9.0, 48.5, 25.0)] {
        let gain = log_pdf(mu1, mu1, var1) - log_pdf(mu1, mu2, var2);
        let expected = gain + var1 / (2.0 * var2) - 0.5;
        assert!((kl(mu1, var1, mu2, var2) - expected).abs() < 1e-12);
    }
}

#[test]
fn log_pdf_falls_off_from_the_mean() {
    let outcomes = [3.0, 3.0 - 1e-14, 3.1, 2.5, 4.0, -10.0, 1e100, -1e200];
    for pair in outcomes.windows(2) {
        assert!(log_pdf(pair[0], 3.0, 4.0) >= log_pdf(pair[1], 3.0, 4.0));
    }
    assert!(log_pdf(2.5, 3.0, 4.0) > log_pdf(4.0, 3.0, 4.0));
}

fn params(mu: f64, sigma: f64, threshold: f64) -> EdgeParams {
    EdgeParams {
        label: "test",
        belief_mu: of(mu),
        belief_sigma: of(sigma),
        edge_threshold: of(threshold),
    }
}

fn market(mu: f64, sigma: f64) -> MarketState {
    MarketState {
        distribution: SimDistribution::Normal(make_normal(of(mu), of(sigma)).unwrap()),
        backing: of(0.0),
        lp_shares: of(0.0),
        settlement_x_star: None,
    }
}

fn show(s: &mut BayesianEdgeStrategy, state: &MarketState, event: MarketEvent) -> Vec<StrategyAction> {
    s.on_event(state, &event, &ln, &exp)
}

#[test]
fn trades_on_an_edge_and_only_once() {
    let mut s = BayesianEdgeStrategy::new(params(50.0, 4.0, 0.05));
    let first = show(&mut s, &market(45.0, 8.0), MarketEvent::Trade);
    assert_eq!(
        first,
        vec![StrategyAction::Trade { candidate: make_normal(of(50.0), of(4.0)).unwrap() }]
    );
    for mu in [45.2, 46.0, 47.5, 40.0] {
        assert!(show(&mut s, &market(mu, 7.0), MarketEvent::Trade).is_empty());
    }
    let traded: Vec<bool> = s.decisions.iter().map(|d| d.traded).collect();
    assert_eq!(traded, vec![true, false, false, false, false]);
    let numbers: Vec<usize> = s.decisions.iter().map(|d| d.event_idx).collect();
    assert_eq!(numbers, vec![0, 1, 2, 3, 4]);
    assert!(s.decisions.iter().all(|d| float(d.kl) > 0.05));
}

#[test]
fn trades_again_when_the_belief_moves() {
    let mut s = BayesianEdgeStrategy::new(params(50.0, 4.0, 0.05));
    assert_eq!(show(&mut s, &market(45.0, 8.0), MarketEvent::Trade).len(), 1);
    assert_eq!(show(&mut s, &market(45.0, 8.0), MarketEvent::Trade).len(), 0);
    s.params.belief_mu = of(51.0);
    assert_eq!(show(&mut s, &market(44.0, 6.0), MarketEvent::Trade).len(), 1);
    // The position leads from the first quote to the last belief.
    show(&mut s, &market(44.0, 6.0), MarketEvent::Settle { x_star: of(50.0) });
    let pdf = |x: f64, mu: f64, sigma: f64| log_pdf(x, mu, sigma * sigma).exp();
    assert_eq!(
        s.payout_breakdown,
        Some((of(pdf(50.0, 45.0, 8.0)), of(pdf(50.0, 51.0, 4.0))))
    );
}

#[test]
fn holds_without_an_edge() {
    let mut s = BayesianEdgeStrategy::new(params(50.0, 4.0, 0.05));
    assert!(show(&mut s, &market(50.0, 4.0), MarketEvent::Trade).is_empty());
    assert_eq!(s.decisions[0].kl, of(0.0));
    assert!(!s.decisions[0].traded);
    // A divergence that equals the threshold is no edge.
    let mut t = BayesianEdgeStrategy::new(params(50.0, 4.0, 0.0));
    assert!(show(&mut t, &market(50.0, 4.0), MarketEvent::Trade).is_empty());
}

#[test]
fn liquidity_events_are_recorded_but_not_traded_on() {
    let mut s = BayesianEdgeStrategy::new(params(50.0, 4.0, 0.05));
    for event in [MarketEvent::AddLiquidity, MarketEvent::RemoveLiquidity] {
        assert!(show(&mut s, &market(45.0, 8.0), event).is_empty());
    }
    assert_eq!(s.decisions.len(), 2);
    assert!(s.decisions.iter().all(|d| !d.traded && float(d.kl) > 0.05));
    // They do not count as a market quote either.
    show(&mut s, &market(45.0, 8.0), MarketEvent::Settle { x_star: of(50.0) });
    assert_eq!(s.realized_log_score, None);
}

#[test]
fn other_families_are_passed_over() {
    let mut s = BayesianEdgeStrategy::new(params(50.0, 4.0, 0.05));
    for family in [
        SimDistribution::Lognormal,
        SimDistribution::Multinoulli,
        SimDistribution::Bivariate,
    ] {
        let state = MarketState { distribution: family, ..market(0.0, 1.0) };
        assert!(show(&mut s, &state, MarketEvent::Trade).is_empty());
    }
    assert!(s.decisions.is_empty());
    show(&mut s, &market(45.0, 8.0), MarketEvent::Trade);
    assert_eq!(s.decisions[0].event_idx, 3);
}

#[test]
fn settlement_scores_belief_and_position() {
    let mut s = BayesianEdgeStrategy::new(params(49.0, 4.0, 0.05));
    show(&mut s, &market(45.0, 8.0), MarketEvent::Trade);
    show(&mut s, &market(48.5, 5.0), MarketEvent::Trade);
    let actions = show(&mut s, &market(48.5, 5.0), MarketEvent::Settle { x_star: of(50.0) });
    assert!(actions.is_empty());
    let score = log_pdf(50.0, 49.0, 16.0) - log_pdf(50.0, 48.5, 25.0);
    assert_eq!(s.realized_log_score, Some(of(score)));
    let (orig, eff) = (log_pdf(50.0, 45.0, 64.0).exp(), log_pdf(50.0, 49.0, 16.0).exp());
    assert_eq!(s.payout_breakdown, Some((of(orig), of(eff))));
    assert_eq!(s.deadeye_payout, Some(of(eff - orig)));
    assert!(eff - orig > 0.0);
    assert_eq!(s.decisions.len(), 2);
}

#[test]
fn settlement_without_trades_records_no_position() {
    let mut s = BayesianEdgeStrategy::new(params(48.5, 5.0, 0.05));
    show(&mut s, &market(48.5, 5.0), MarketEvent::Trade);
    show(&mut s, &market(48.5, 5.0), MarketEvent::Settle { x_star: of(50.0) });
    assert_eq!(s.deadeye_payout, None);
    assert_eq!(s.payout_breakdown, None);
    assert_eq!(s.realized_log_score, Some(of(0.0)));
}

#[test]
fn a_confident_and_wrong_position_loses() {
    let mut s = BayesianEdgeStrategy::new(params(35.0, 3.0, 0.05));
    show(&mut s, &market(45.0, 8.0), MarketEvent::Trade);
    show(&mut s, &market(45.0, 8.0), MarketEvent::Settle { x_star: of(50.0) });
    assert!(float(s.deadeye_payout.unwrap()) < 0.0);
    assert!(float(s.realized_log_score.unwrap()) < 0.0);
}

#[test]
fn a_belief_out_of_range_is_held_back() {
    let mut s = BayesianEdgeStrategy::new(params(1e39, 4.0, 0.05));
    assert!(show(&mut s, &market(45.0, 8.0), MarketEvent::Trade).is_empty());
    assert!(s.decisions[0].traded);
    assert_eq!(s.build_candidate(), Err(NormalError::Mean(FixedPointError::Overflow)));
    // It has not traded: it decides the same again, and settles without a position.
    assert!(show(&mut s, &market(46.0, 7.0), MarketEvent::Trade).is_empty());
    assert!(s.decisions[1].traded);
    assert_eq!((s.f_orig, s.f_eff), (None, None));
    show(&mut s, &market(46.0, 7.0), MarketEvent::Settle { x_star: of(50.0) });
    assert_eq!(s.deadeye_payout, None);
    assert_eq!(s.payout_breakdown, None);
    assert!(s.realized_log_score.is_some());
    // Once the belief can be written, the position begins at the quote of that time.
    s.params.belief_mu = of(50.0);
    assert_eq!(show(&mut s, &market(44.0, 6.0), MarketEvent::Trade).len(), 1);
    assert_eq!(s.f_orig, Some((of(44.0), of(36.0))));
    let t = BayesianEdgeStrategy::new(params(0.0, 1e20, 0.05));
    assert_eq!(t.build_candidate(), Err(NormalError::Variance(FixedPointError::Overflow)));
    let u = BayesianEdgeStrategy::new(params(0.0, f64::NAN, 0.05));
    assert_eq!(u.build_candidate(), Err(NormalError::Variance(FixedPointError::NotFinite)));
}

#[test]
fn a_belief_that_is_no_number_has_no_edge() {
    let mut s = BayesianEdgeStrategy::new(params(f64::NAN, 4.0, 0.05));
    for _ in 0..3 {
        assert!(show(&mut s, &market(45.0, 8.0), MarketEvent::Trade).is_empty());
    }
    assert!(s.decisions.iter().all(|d| !d.traded && float(d.kl).is_nan()));
}

#[test]
fn a_degenerate_market_has_no_edge() {
    let mut s = BayesianEdgeStrategy::new(params(50.0, 4.0, 0.05));
    assert!(show(&mut s, &market(45.0, 0.0), MarketEvent::Trade).is_empty());
    assert!(float(s.decisions[0].kl).is_nan());
}

#[test]
fn quotes_can_be_taken_note_of_directly() {
    let mut s = BayesianEdgeStrategy::new(params(50.0, 4.0, 0.05));
    assert_eq!(s.on_quote(&MarketEvent::Trade, of(45.0), of(64.0), of(0.05)).len(), 0);
    assert_eq!(s.on_quote(&MarketEvent::Trade, of(46.0), of(49.0), of(0.06)).len(), 1);
    assert_eq!(s.on_quote(&MarketEvent::Trade, of(47.0), of(36.0), of(0.07)).len(), 0);
    assert_eq!(s.decisions[1].market_sigma, of(7.0));
    s.on_settlement(Some(of(0.25)), Some((of(0.02), of(0.09))));
    assert_eq!(s.realized_log_score, Some(of(0.25)));
    assert_eq!(s.deadeye_payout, Some(of(0.09 - 0.02)));
    s.on_settlement(None, None);
    assert_eq!(s.payout_breakdown, Some((of(0.02), of(0.09))));
}

#[test]
fn every_quote_gets_one_decision_and_the_first_trade_the_origin() {
    let mut s = BayesianEdgeStrategy::new(params(50.0, 4.0, 0.3));
    show(&mut s, &market(50.0, 4.5), MarketEvent::Trade);
    let other = MarketState { distribution: SimDistribution::Lognormal, ..market(0.0, 1.0) };
    show(&mut s, &other, MarketEvent::Trade);
    show(&mut s, &market(45.0, 8.0), MarketEvent::AddLiquidity);
    show(&mut s, &market(46.1, 7.0), MarketEvent::Trade);
    show(&mut s, &market(47.3, 6.0), MarketEvent::Trade);
    show(&mut s, &market(48.0, 5.5), MarketEvent::RemoveLiquidity);
    show(&mut s, &market(48.0, 5.5), MarketEvent::Settle { x_star: of(50.0) });
    let rows: Vec<(usize, f64, f64, bool)> = s
        .decisions
        .iter()
        .map(|d| (d.event_idx, float(d.market_mu), float(d.market_sigma), d.traded))
        .collect();
    assert_eq!(
        rows,
        vec![
            (0, 50.0, 4.5, false),
            (2, 45.0, 8.0, false),
            (3, 46.1, 7.0, true),
            (4, 47.3, 6.0, false),
            (5, 48.0, 5.5, false),
        ]
    );
    assert_eq!(s.f_orig, Some((of(46.1), of(49.0))));
    assert_eq!(s.f_eff, Some((of(50.0), of(16.0))));
    assert_eq!(s.last_market, Some((of(47.3), of(36.0))));
    assert_eq!(s.event_counter, 7);
    let (orig, eff) = s.payout_breakdown.unwrap();
    assert!(float(orig) >= 0.0 && float(eff) >= 0.0);
}
