# deadeye_strat_backtest

A Bayesian-edge strategy backtester on top of
[`deadeye-sdk`](https://docs.rs/deadeye-sdk), with a core that is verified with
[Verus](https://github.com/verus-lang/verus).

## What the strategy does

`BayesianEdgeStrategy` holds a private belief `N(μ_b, σ_b²)`. After every trade in
the market it reads the public consensus `N(μ_m, σ_m²)` and computes
`KL(belief ‖ market)`, its expected log-pdf gain at the outcome under its own
belief. Where that exceeds `edge_threshold`, and its position does not end at the
belief yet, it reshapes the market to the belief. At settlement it records

- `realized_log_score = log p_belief(x*) − log p_market(x*)`, and
- `deadeye_payout = pdf(f_eff, x*) − pdf(f_orig, x*)`, where `f_orig` is the market
  at its first trade and `f_eff` the belief at its last one.

Only the two endpoints of a position matter at settlement. Trading again toward a
belief that has not moved would pay collateral and leave the payoff as it is, so a
strategy trades once per belief. `src/laws.rs` proves both halves of this.

Three strategies run side by side on a thirty-step drift from `N(45, 8)` toward
`N(48.5, 5)`, settled at 50:

```
strategy              trades    collat       <KL>   log-score@x*  Δpdf@x* (×10³)
────────────────────────────────────────────────────────────────────────────────
Informed                   1    -0.031     0.2313        +0.2369         +53.720
Oracle (= truth)           1    -0.035     0.2926        +0.2681         +56.789
Wrong-Confident            1    -0.050     2.2395       -11.9442         -42.946
```

## Layout

```
src/
├── strategy.rs    the strategy: what it does at each event
├── laws.rs        what holds of a strategy over a whole run
├── synthetic.rs   synthetic timelines: trades that drift, then a settlement
├── report.rs      the contenders, and the figures that the tables show
├── gaussian.rs    Kullback-Leibler divergence and log-density of normals
├── exact.rs       the divergence without rounding, and what rounding adds
├── market.rs      distributions, market states, events and actions
├── sq128.rs       signed Q128.128 fixed point
├── binary64.rs    IEEE 754 binary64 arithmetic on bit patterns
├── rounding.rs    round to nearest, ties to even
└── root.rs        correctly rounded square roots
tests/             tests against the machine's floats and the real SDK
app/               the program: engine, logging and printing
```

## Numbers

The library computes with binary64 numbers held as bit patterns. Addition,
multiplication, division and square root are done on integers and proved to give
the nearest binary64, so that contracts can say exactly what comes out of each
formula; the tests compare them with the machine's own. Logarithm and exponential
function are the caller's: formulas take the logarithms they need as arguments, and
`on_event` takes the two functions.

## What is not proved

One function of the SDK is called from `src/`:
`NormalDistribution::from_variance`, in `market.rs`. The comment on its wrapper says
what is claimed of it.
