use deadeye_strat_backtest::binary64::Binary64;

fn of(x: f64) -> Binary64 {
    Binary64 { bits: x.to_bits() }
}

fn same_number(got: Binary64, want: f64) -> bool {
    if want.is_nan() {
        f64::from_bits(got.bits).is_nan()
    } else {
        got.bits == want.to_bits()
    }
}

/// A fixed sequence of bit patterns (xorshift).
fn next(seed: &mut u64) -> u64 {
    *seed ^= *seed << 13;
    *seed ^= *seed >> 7;
    *seed ^= *seed << 17;
    *seed
}

fn check_pair(a: f64, b: f64) {
    let (x, y) = (of(a), of(b));
    assert!(same_number(x.plus(y), a + b), "{a:e} + {b:e}");
    assert!(same_number(x.minus(y), a - b), "{a:e} - {b:e}");
    assert!(same_number(x.times(y), a * b), "{a:e} * {b:e}");
    assert!(same_number(x.over(y), a / b), "{a:e} / {b:e}");
    assert!(same_number(x.sqrt(), a.sqrt()), "sqrt {a:e}");
    assert_eq!(x.negated().bits, (-a).to_bits());
    assert_eq!(x.exceeds(y), a > b, "{a:e} > {b:e}");
    assert_eq!(x.equals(y), a == b, "{a:e} == {b:e}");
    if a != 0.0 || b != 0.0 {
        assert!(same_number(x.max(y), a.max(b)), "max {a:e} {b:e}");
    }
}

#[test]
fn agrees_with_the_machine_on_edge_values() {
    let edges = [
        0.0,
        -0.0,
        1.0,
        -1.0,
        0.5,
        2.0,
        3.0,
        0.1,
        f64::MIN_POSITIVE,
        -f64::MIN_POSITIVE,
        f64::from_bits(1),
        f64::from_bits(0x000f_ffff_ffff_ffff),
        f64::from_bits(0x0010_0000_0000_0001),
        f64::MAX,
        -f64::MAX,
        f64::EPSILON,
        1.0 + f64::EPSILON,
        1.0 - f64::EPSILON / 2.0,
        9007199254740992.0,
        9007199254740993.0,
        f64::INFINITY,
        f64::NEG_INFINITY,
        f64::NAN,
    ];
    for a in edges {
        for b in edges {
            check_pair(a, b);
        }
    }
}

#[test]
fn agrees_with_the_machine_on_arbitrary_bits() {
    let mut seed = 0x9e37_79b9_7f4a_7c15_u64;
    for _ in 0..20_000 {
        let a = f64::from_bits(next(&mut seed));
        let b = f64::from_bits(next(&mut seed));
        check_pair(a, b);
    }
}

#[test]
fn agrees_with_the_machine_on_close_exponents() {
    let mut seed = 0x2545_f491_4f6c_dd1d_u64;
    for _ in 0..20_000 {
        let a = f64::from_bits(next(&mut seed));
        let near = (a.to_bits() >> 52 & 0x7ff) as i64 + (next(&mut seed) % 140) as i64 - 70;
        let exponent = near.clamp(0, 2046) as u64;
        let b = f64::from_bits(next(&mut seed) & 0x800f_ffff_ffff_ffff | exponent << 52);
        check_pair(a, b);
    }
}

#[test]
fn whole_numbers_and_ratios_are_rounded_to_nearest() {
    let mut seed = 0x1234_5678_9abc_def1_u64;
    for _ in 0..5_000 {
        let n = next(&mut seed) >> (next(&mut seed) % 64);
        assert_eq!(Binary64::from_u64(n), of(n as f64));
    }
    assert_eq!(Binary64::from_ratio(97, 2), of(48.5));
    assert_eq!(Binary64::from_ratio(2, 5), of(0.4));
    assert_eq!(Binary64::from_ratio(1, 20), of(0.05));
    assert_eq!(Binary64::from_ratio(1, 3), of(1.0 / 3.0));
    assert_eq!(Binary64::from_ratio(0, 7), of(0.0));
}
