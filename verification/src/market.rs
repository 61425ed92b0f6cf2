//! Normal distributions as the market holds them, and what a strategy sees of
//! the market and asks of it.

use vstd::prelude::*;
use crate::binary64::{signed, Binary64};
use crate::root::{floor_root, is_floor_root, lemma_floor_root_unique};
use crate::sq128::{
    approximation, fits_fixed_point, fixed, fixed_point, law_read_back, lemma_fixed_limbs,
    lemma_truncated_magnitude, FixedPointError, Sq128,
};

verus! {

/// A normal distribution in fixed point.
#[derive(Debug, Clone, Copy, PartialEq, Eq, Structural)]
pub struct NormalDistribution {
    /// The mean.
    pub mean: Sq128,
    /// The variance.
    pub variance: Sq128,
    /// The root of the variance.
    pub sigma: Sq128,
}

/// Why a distribution cannot be built.
#[derive(Debug, Clone, Copy, PartialEq, Eq, Structural)]
pub enum NormalError {
    /// The mean has no fixed-point counterpart.
    Mean(FixedPointError),
    /// The variance has no fixed-point counterpart.
    Variance(FixedPointError),
    /// The variance is below zero.
    NegativeVariance,
}

/// What the market trades at the moment.
#[derive(Debug, Clone, Copy, PartialEq, Eq, Structural)]
pub enum SimDistribution {
    /// A normal market.
    Normal(NormalDistribution),
    /// A lognormal market.
    Lognormal,
    /// A market over categories.
    Multinoulli,
    /// A market over pairs.
    Bivariate,
}

/// The simulated market between two events.
#[derive(Debug, Clone, Copy, PartialEq, Eq, Structural)]
pub struct MarketState {
    /// The current distribution.
    pub distribution: SimDistribution,
    /// The backing of the pool.
    pub backing: Binary64,
    /// The shares of the liquidity providers.
    pub lp_shares: Binary64,
    /// The settlement value, once there is one.
    pub settlement_x_star: Option<Binary64>,
}

/// What has just happened in the market.
#[derive(Debug, Clone, Copy, PartialEq, Eq, Structural)]
pub enum MarketEvent {
    /// A trader moved the market.
    Trade,
    /// Liquidity came in.
    AddLiquidity,
    /// Liquidity was taken out.
    RemoveLiquidity,
    /// The market was settled.
    Settle {
        /// The realized outcome.
        x_star: Binary64,
    },
}

/// What a strategy asks of the market.
#[derive(Debug, Clone, Copy, PartialEq, Eq, Structural)]
pub enum StrategyAction {
    /// Move the market to `candidate`.
    Trade {
        /// The distribution to move to.
        candidate: NormalDistribution,
    },
}

/// The error type of the fixed-point and distribution primitives.
#[verifier::external_type_specification]
#[verifier::external_body]
pub struct ExCoreError(deadeye_sdk::core::CoreError);

/// One more than the greatest variance whose root is claimed to be exact, in
/// units of `2^-128`: `2^256 - 2^128 + 1`.
pub open spec fn exact_root_limit() -> nat {
    0xffff_ffff_ffff_ffff_ffff_ffff_ffff_ffff_0000_0000_0000_0000_0000_0000_0000_0001nat
}

/// Whether `d` is the normal distribution of this mean and variance: both are
/// kept, without the sign of a zero, and sigma is the root of the variance, cut
/// off below `2^-128`.
pub open spec fn is_normal(d: NormalDistribution, mean: Sq128, variance: Sq128) -> bool {
    &&& d.mean == mean.canonical()
    &&& d.variance == variance.canonical()
    &&& !d.sigma.neg
    &&& variance.magnitude() < exact_root_limit() ==> is_floor_root(
        variance.magnitude() * 0x1_0000_0000_0000_0000_0000_0000_0000_0000nat,
        1,
        d.sigma.magnitude(),
    )
}

/// The normal distribution of the given mean and variance, both cut to fixed
/// point, or why there is none.
pub open spec fn normal(mean: Binary64, variance: Binary64) -> Result<NormalDistribution, NormalError> {
    match (fixed_point(mean), fixed_point(variance)) {
        (Err(e), _) => Err(NormalError::Mean(e)),
        (Ok(_), Err(e)) => Err(NormalError::Variance(e)),
        (Ok(m), Ok(v)) => if v.is_negative() {
            Err(NormalError::NegativeVariance)
        } else {
            Ok(
                NormalDistribution {
                    mean: m,
                    variance: v,
                    sigma: fixed(
                        false,
                        floor_root(v.magnitude() * 0x1_0000_0000_0000_0000_0000_0000_0000_0000nat),
                    ),
                },
            )
        },
    }
}

/// Calls `deadeye_core::NormalDistribution::from_variance`.
///
/// Trusted: it fails exactly when the variance is below zero; otherwise it keeps
/// the mean and the variance as they are given, and computes sigma as the
/// integer square root of the variance's magnitude times `2^128`. The root is
/// claimed up to a magnitude of `2^256 - 2^128`: beyond that an intermediate
/// guess of the outside iteration is wider than its long division can take, and
/// nothing is said of sigma but that it is not negative.
#[verifier::external_body]
fn outside_from_variance(mean: Sq128, variance: Sq128) -> (r: Result<
    NormalDistribution,
    deadeye_sdk::core::CoreError,
>)
    ensures
        r is Err <==> variance.is_negative(),
        r matches Ok(d) ==> is_normal(d, mean, variance),
{
    let raw = |q: Sq128| deadeye_sdk::core::Sq128Raw {
        limb0: q.limb0, limb1: q.limb1, limb2: q.limb2, limb3: q.limb3, neg: q.neg,
    };
    let own = |q: deadeye_sdk::core::Sq128Raw| Sq128 {
        limb0: q.limb0, limb1: q.limb1, limb2: q.limb2, limb3: q.limb3, neg: q.neg,
    };
    let built = deadeye_sdk::core::NormalDistribution::from_variance(
        deadeye_sdk::core::Sq128::from_raw(raw(mean)),
        deadeye_sdk::core::Sq128::from_raw(raw(variance)),
    )?;
    let d = deadeye_sdk::core::Distribution::to_raw(&built);
    Ok(NormalDistribution { mean: own(d.mean), variance: own(d.variance), sigma: own(d.sigma) })
}

impl NormalDistribution {
    /// The normal distribution of the given mean and variance.
    pub fn from_variance(mean: Sq128, variance: Sq128) -> (r: Result<Self, NormalError>)
        ensures
            r matches Err(e) ==> variance.is_negative() && e == NormalError::NegativeVariance,
            r matches Ok(d) ==> !variance.is_negative() && is_normal(d, mean, variance),
    {
        match outside_from_variance(mean, variance) {
            Ok(d) => Ok(d),
            Err(_) => Err(NormalError::NegativeVariance),
        }
    }

    /// The normal distribution of the given mean and variance, both cut to
    /// fixed point.
    pub fn from_moments(mean: Binary64, variance: Binary64) -> (r: Result<Self, NormalError>)
        ensures
            r == normal(mean, variance),
    {
        let m: Sq128 = match Sq128::from_binary64(mean) {
            Ok(m) => m,
            Err(e) => {
                return Err(NormalError::Mean(e));
            },
        };
        let v: Sq128 = match Sq128::from_binary64(variance) {
            Ok(v) => v,
            Err(e) => {
                return Err(NormalError::Variance(e));
            },
        };
        let r: Result<Self, NormalError> = Self::from_variance(m, v);
        proof {
            lemma_truncated_magnitude(mean);
            lemma_truncated_magnitude(variance);
            if let Ok(d) = r {
                let n = v.magnitude() * 0x1_0000_0000_0000_0000_0000_0000_0000_0000nat;
                lemma_floor_root_unique(n, 1, d.sigma.magnitude(), floor_root(n));
                lemma_fixed_limbs(d.sigma);
            }
        }
        r
    }
}

/// The moments that a distribution is built of are what is read from it, up to
/// the sign of a zero, where they have no bits below `2^-128`.
pub proof fn law_moments_are_read_back(mean: Binary64, variance: Binary64)
    requires
        fits_fixed_point(mean),
        fits_fixed_point(variance),
    ensures
        normal(mean, variance) matches Ok(d) ==> {
            &&& !mean.is_zero() ==> approximation(d.mean) == mean
            &&& mean.is_zero() ==> approximation(d.mean) == signed(false, 0)
            &&& !variance.is_zero() ==> approximation(d.variance) == variance
            &&& variance.is_zero() ==> approximation(d.variance) == signed(false, 0)
        },
{
    if let Ok(d) = normal(mean, variance) {
        law_read_back(mean);
        law_read_back(variance);
    }
}

} // verus!
