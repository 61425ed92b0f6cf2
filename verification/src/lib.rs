//! Verified core of a Bayesian-edge backtester for distribution markets.
//!
//! A strategy holds a private belief, a normal distribution, and watches a market
//! whose price is a normal distribution too. It moves the market to its belief
//! where the belief diverges enough from the market, and is paid at settlement by
//! the density of the outcome under its belief less that under the market it
//! found.
//!
//! * [`strategy`] takes events and decides; [`laws`] states what holds of it over
//!   a whole run.
//! * [`conduct`] and [`settlement`] state what a strategy does at a single event, in
//!   real numbers; [`timelines`] and [`figures`] do so for timelines and reports.
//! * [`synthetic`] builds timelines to run strategies on, and [`report`] holds
//!   what the tables of a run show.
//! * [`gaussian`] has the formulas: divergence and log-density; [`exact`] and
//!   [`accuracy`] compare them with what they are in real arithmetic.
//! * [`market`] and [`sq128`] have the distributions and the fixed-point numbers
//!   of the market.
//! * [`binary64`], with [`rounding`] and [`root`] below it, is the arithmetic that
//!   all this is computed in.
//! * [`reals`], [`operations`], [`roots`] and [`conversions`] say what the numbers and
//!   the operations on them are in real numbers.

pub mod accuracy;
pub mod binary64;
pub mod conduct;
pub mod conversions;
pub mod exact;
pub mod figures;
pub mod gaussian;
pub mod laws;
pub mod market;
pub mod operations;
pub mod reals;
pub mod report;
pub mod root;
pub mod roots;
pub mod rounding;
pub mod settlement;
pub mod sq128;
pub mod strategy;
pub mod synthetic;
pub mod timelines;
