use deadeye_strat_backtest::binary64::Binary64;
use deadeye_strat_backtest::market::{NormalDistribution, NormalError};
use deadeye_strat_backtest::sq128::{FixedPointError, Sq128};

fn of(x: f64) -> Binary64 {
    Binary64 { bits: x.to_bits() }
}

fn own(q: deadeye_sdk::core::Sq128Raw) -> Sq128 {
    Sq128 { limb0: q.limb0, limb1: q.limb1, limb2: q.limb2, limb3: q.limb3, neg: q.neg }
}

fn raw(q: Sq128) -> deadeye_sdk::core::Sq128Raw {
    deadeye_sdk::core::Sq128Raw {
        limb0: q.limb0,
        limb1: q.limb1,
        limb2: q.limb2,
        limb3: q.limb3,
        neg: q.neg,
    }
}

fn next(seed: &mut u64) -> u64 {
    *seed ^= *seed << 13;
    *seed ^= *seed >> 7;
    *seed ^= *seed << 17;
    *seed
}

fn check_conversion(x: f64) {
    let got = Sq128::from_binary64(of(x));
    match deadeye_sdk::core::Sq128::from_f64(x) {
        Ok(want) => assert_eq!(got, Ok(own(want.to_raw())), "{x:e}"),
        Err(deadeye_sdk::core::CoreError::Overflow { .. }) => {
            assert_eq!(got, Err(FixedPointError::Overflow), "{x:e}")
        }
        Err(_) => assert_eq!(got, Err(FixedPointError::NotFinite), "{x:e}"),
    }
}

#[test]
fn numbers_are_cut_as_the_sdk_cuts_them() {
    for x in [
        0.0,
        -0.0,
        1.0,
        -1.0,
        48.5,
        0.1,
        -1234.5678,
        f64::powi(2.0, -128),
        f64::powi(2.0, -129),
        -f64::powi(2.0, -200),
        f64::powi(2.0, 127),
        f64::powi(2.0, 128),
        -f64::powi(2.0, 128),
        f64::from_bits(0x47ef_ffff_ffff_ffff),
        f64::from_bits(1),
        f64::MAX,
        f64::INFINITY,
        f64::NEG_INFINITY,
        f64::NAN,
    ] {
        check_conversion(x);
    }
    let mut seed = 0x0bad_cafe_1234_5678_u64;
    for _ in 0..5_000 {
        let sign_and_fraction = next(&mut seed) & 0x800f_ffff_ffff_ffff;
        let exponent = 1023 - 190 + next(&mut seed) % 330;
        check_conversion(f64::from_bits(sign_and_fraction | exponent << 52));
    }
}

#[test]
fn numbers_are_read_back_as_the_sdk_reads_them() {
    let mut seed = 0x7777_1234_0000_4321_u64;
    for _ in 0..5_000 {
        let mut limb = || {
            let n = next(&mut seed);
            if n % 3 == 0 {
                0
            } else {
                n >> (next(&mut seed) % 64)
            }
        };
        let q = Sq128 {
            limb0: limb(),
            limb1: limb(),
            limb2: limb(),
            limb3: limb(),
            neg: limb() % 2 == 1,
        };
        let outside = deadeye_sdk::core::Sq128::from_raw(raw(q));
        let canonical = own(outside.to_raw());
        assert_eq!(canonical.to_binary64().bits, outside.to_f64().to_bits());
    }
}

#[test]
fn distributions_are_built_as_the_sdk_builds_them() {
    for (mu, var) in [(45.0, 64.0), (48.5, 25.0), (-3.25, 0.04), (0.0, 0.0), (1e30, 1e38), (7.0, 1e-37)] {
        let got = NormalDistribution::from_moments(of(mu), of(var)).unwrap();
        let built = deadeye_sdk::core::NormalDistribution::from_variance(
            deadeye_sdk::core::Sq128::from_f64(mu).unwrap(),
            deadeye_sdk::core::Sq128::from_f64(var).unwrap(),
        )
        .unwrap();
        let want = deadeye_sdk::core::Distribution::to_raw(&built);
        assert_eq!(got.mean, own(want.mean));
        assert_eq!(got.variance, own(want.variance));
        assert_eq!(got.sigma, own(want.sigma));
    }
    let exact = NormalDistribution::from_moments(of(45.0), of(64.0)).unwrap();
    assert_eq!(exact.sigma, Sq128::from_binary64(of(8.0)).unwrap());
    assert_eq!(exact.mean, Sq128 { limb0: 0, limb1: 0, limb2: 45, limb3: 0, neg: false });
}

#[test]
fn negative_variances_are_refused() {
    let one = Sq128 { limb0: 0, limb1: 0, limb2: 1, limb3: 0, neg: false };
    let minus_one = Sq128 { neg: true, ..one };
    assert_eq!(
        NormalDistribution::from_variance(one, minus_one),
        Err(NormalError::NegativeVariance)
    );
    assert_eq!(
        NormalDistribution::from_moments(of(1.0), of(-1.0)),
        Err(NormalError::NegativeVariance)
    );
    // A zero with a sign is no negative variance, and loses its sign.
    let signed_zero = Sq128 { limb0: 0, limb1: 0, limb2: 0, limb3: 0, neg: true };
    let flat = NormalDistribution::from_variance(minus_one, signed_zero).unwrap();
    assert_eq!(flat.mean, minus_one);
    assert!(!flat.variance.neg && !flat.sigma.neg);
}

#[test]
fn positive_numbers_stay_positive() {
    let least = Sq128 { limb0: 1, limb1: 0, limb2: 0, limb3: 0, neg: false };
    assert!(least.to_binary64().exceeds(of(0.0)));
    assert_eq!(least.to_binary64(), of(f64::powi(2.0, -128)));
}

#[test]
fn exact_numbers_are_read_back_as_they_were() {
    let mut seed = 0x5eed_0000_beef_0001_u64;
    let mut check = |x: f64| {
        assert_eq!(Sq128::from_binary64(of(x)).unwrap().to_binary64(), of(x), "{x:e}");
    };
    for x in [48.5, -0.1, 25.0, f64::powi(2.0, -128), -3.0 * f64::powi(2.0, -128), f64::powi(2.0, 127)] {
        check(x);
    }
    check(f64::from_bits(0x47ef_ffff_ffff_ffff));
    for _ in 0..5_000 {
        let sign_and_fraction = next(&mut seed) & 0x800f_ffff_ffff_ffff;
        let exponent = 1023 - 76 + next(&mut seed) % 204;
        check(f64::from_bits(sign_and_fraction | exponent << 52));
    }
    // Zeros lose their sign, and bits below the last place are cut off.
    let read = |x: f64| Sq128::from_binary64(of(x)).unwrap().to_binary64();
    assert_eq!(read(-0.0), of(0.0));
    assert_eq!(read(1.5 * f64::powi(2.0, -128)), of(f64::powi(2.0, -128)));
    let d = NormalDistribution::from_moments(of(46.1), of(0.3)).unwrap();
    assert_eq!(d.mean.to_binary64(), of(46.1));
    assert_eq!(d.variance.to_binary64(), of(0.3));
}
