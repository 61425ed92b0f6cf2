//! Round to nearest, ties to even, of a non-negative rational number to the
//! magnitudes that an IEEE 754 binary64 can hold.
//!
//! Magnitudes are measured in units of the smallest subnormal, `2^-1074`, so
//! that every finite magnitude is a whole number of units.

use vstd::prelude::*;
use vstd::arithmetic::power2::*;

verus! {

/// `2^52`: the weight of the bit that a normal significand leaves implicit.
pub const HIDDEN_BIT: u64 = 0x0010_0000_0000_0000;

/// The magnitude bits of infinity. Greater ones are not numbers.
pub const INFINITY_BITS: u64 = 0x7ff0_0000_0000_0000;

/// What the magnitude bits `m` (exponent field above a 52-bit fraction) stand
/// for, in units of `2^-1074`.
pub open spec fn units(m: nat) -> nat {
    if m < HIDDEN_BIT {
        m
    } else {
        (m % (HIDDEN_BIT as nat) + HIDDEN_BIT as nat) * pow2((m / (HIDDEN_BIT as nat) - 1) as nat)
    }
}

/// The whole number nearest to `n / d`; of two that are equally near, the even
/// one.
pub open spec fn nearest_even(n: nat, d: nat) -> nat {
    let q = n / d;
    let r = n % d;
    if 2 * r > d || (2 * r == d && q % 2 == 1) {
        q + 1
    } else {
        q
    }
}

/// The least `e` for which `n / d` is below `2^(53 + e)`: the exponent of the
/// last place of a 53-bit significand that holds `n / d`, never below that of
/// the subnormals.
pub open spec fn last_place(n: nat, d: nat) -> nat
    decreases n - d,
{
    if d == 0 || n < 0x0020_0000_0000_0000 * d {
        0
    } else {
        1 + last_place(n, 2 * d)
    }
}

/// The magnitude bits of the binary64 nearest to `n / d` units, ties to even;
/// infinity from half a last place beyond the greatest finite magnitude on.
pub open spec fn rounded(n: nat, d: nat) -> nat {
    let e = last_place(n, d);
    let m = e * (HIDDEN_BIT as nat) + nearest_even(n, d * pow2(e));
    if m >= INFINITY_BITS {
        INFINITY_BITS as nat
    } else {
        m
    }
}

/// Pins `last_place` by the two bounds that define it.
proof fn lemma_last_place_unique(n: nat, d: nat, e: nat)
    requires
        d > 0,
        n < d * 0x0020_0000_0000_0000 * pow2(e),
        e > 0 ==> n >= d * 0x0010_0000_0000_0000 * pow2(e),
    ensures
        last_place(n, d) == e,
    decreases e,
{
    lemma_pow2_pos(e);
    if e == 0 {
        lemma2_to64();
    } else {
        let f = (e - 1) as nat;
        lemma_pow2_unfold(e);
        lemma_pow2_pos(f);
        let p = pow2(f);
        assert(d * 0x0010_0000_0000_0000 * (2 * p) == (2 * d) * 0x0010_0000_0000_0000 * p) by (nonlinear_arith);
        assert(d * 0x0020_0000_0000_0000 * (2 * p) == (2 * d) * 0x0020_0000_0000_0000 * p) by (nonlinear_arith);
        assert((2 * d) * 0x0010_0000_0000_0000 * p >= 0x0020_0000_0000_0000 * d) by (nonlinear_arith)
            requires
                p >= 1,
        ;
        lemma_last_place_unique(n, 2 * d, f);
    }
}

/// The two bounds that define `last_place`.
pub proof fn lemma_last_place_bounds(n: nat, d: nat)
    requires
        d > 0,
    ensures
        n < d * 0x0020_0000_0000_0000 * pow2(last_place(n, d)),
        last_place(n, d) > 0 ==> n >= d * 0x0010_0000_0000_0000 * pow2(last_place(n, d)),
    decreases n - d,
{
    lemma2_to64();
    if n < 0x0020_0000_0000_0000 * d {
        assert(d * 0x0020_0000_0000_0000 * pow2(0) == 0x0020_0000_0000_0000 * d) by (nonlinear_arith)
            requires
                pow2(0) == 1,
        ;
    } else {
        let e = last_place(n, d);
        let f = last_place(n, 2 * d);
        lemma_last_place_bounds(n, 2 * d);
        assert(e == f + 1);
        lemma_pow2_unfold(e);
        let p = pow2(f);
        assert(pow2(e) == 2 * p);
        if f == 0 {
            assert((2 * d) * 0x0010_0000_0000_0000 * p == 0x0020_0000_0000_0000 * d) by (nonlinear_arith)
                requires
                    p == 1,
            ;
        }
        assert(d * 0x0010_0000_0000_0000 * (2 * p) == (2 * d) * 0x0010_0000_0000_0000 * p) by (nonlinear_arith);
        assert(d * 0x0020_0000_0000_0000 * (2 * p) == (2 * d) * 0x0020_0000_0000_0000 * p) by (nonlinear_arith);
    }
}

/// Rounding a fraction does not depend on how it is written.
pub proof fn lemma_nearest_even_scale(n: nat, d: nat, k: nat)
    requires
        d > 0,
        k > 0,
    ensures
        nearest_even(n * k, d * k) == nearest_even(n, d),
{
    let q = n / d;
    let r = n % d;
    vstd::arithmetic::div_mod::lemma_fundamental_div_mod(n as int, d as int);
    assert(n * k == (d * k) * q + r * k) by (nonlinear_arith)
        requires
            n == d * q + r,
    ;
    assert(0 <= r * k < d * k) by (nonlinear_arith)
        requires
            0 <= r < d,
            k > 0,
    ;
    assert((d * k) * q == q * (d * k)) by (nonlinear_arith);
    vstd::arithmetic::div_mod::lemma_fundamental_div_mod_converse(
        (n * k) as int,
        (d * k) as int,
        q as int,
        (r * k) as int,
    );
    assert((2 * (r * k) > d * k) == (2 * r > d)) by (nonlinear_arith)
        requires
            k > 0,
    ;
    assert((2 * (r * k) == d * k) == (2 * r == d)) by (nonlinear_arith)
        requires
            k > 0,
    ;
}

/// Rounding a fraction does not depend on how it is written.
pub proof fn lemma_rounded_scale(n: nat, d: nat, k: nat)
    requires
        d > 0,
        k > 0,
    ensures
        rounded(n * k, d * k) == rounded(n, d),
{
    let e = last_place(n, d);
    let p = pow2(e);
    lemma_pow2_pos(e);
    lemma_last_place_bounds(n, d);
    assert(n * k < (d * k) * 0x0020_0000_0000_0000 * p) by (nonlinear_arith)
        requires
            n < d * 0x0020_0000_0000_0000 * p,
            k > 0,
    ;
    if e > 0 {
        assert(n * k >= (d * k) * 0x0010_0000_0000_0000 * p) by (nonlinear_arith)
            requires
                n >= d * 0x0010_0000_0000_0000 * p,
                k > 0,
        ;
    }
    assert(d * k > 0) by (nonlinear_arith)
        requires
            d > 0,
            k > 0,
    ;
    lemma_last_place_unique(n * k, d * k, e);
    assert(d * p > 0) by (nonlinear_arith)
        requires
            d > 0,
            p > 0,
    ;
    assert((d * k) * p == (d * p) * k) by (nonlinear_arith);
    lemma_nearest_even_scale(n, d * p, k);
}

/// Rounds `n / d` from its last place and the whole number of last places.
proof fn lemma_rounded_at(n: nat, d: nat, e: nat)
    requires
        d > 0,
        n < d * 0x0020_0000_0000_0000 * pow2(e),
        e > 0 ==> n >= d * 0x0010_0000_0000_0000 * pow2(e),
    ensures
        rounded(n, d) == (if e * (HIDDEN_BIT as nat) + nearest_even(n, d * pow2(e)) >= INFINITY_BITS {
            INFINITY_BITS as nat
        } else {
            e * (HIDDEN_BIT as nat) + nearest_even(n, d * pow2(e))
        }),
{
    lemma_last_place_unique(n, d, e);
}

/// `2^t`.
pub fn power_of_two(t: u64) -> (p: u128)
    requires
        t < 128,
    ensures
        p == pow2(t as nat),
{
    proof {
        lemma2_to64();
    }
    let mut p: u128 = 1;
    let mut i: u64 = 0;
    while i < t
        invariant
            i <= t < 128,
            p == pow2(i as nat),
        decreases t - i,
    {
        proof {
            lemma_pow2_unfold((i + 1) as nat);
            lemma_pow2_128();
            if i + 1 < 128 {
                lemma_pow2_strictly_increases((i + 1) as nat, 128);
            }
        }
        p = p * 2;
        i = i + 1;
    }
    p
}

/// `2^128` is one more than the greatest `u128`.
proof fn lemma_pow2_128()
    ensures
        pow2(128) == 0x1_0000_0000_0000_0000_0000_0000_0000_0000,
{
    lemma2_to64();
    lemma_pow2_adds(64, 64);
    assert(pow2(64) * pow2(64) == 0x1_0000_0000_0000_0000_0000_0000_0000_0000) by (nonlinear_arith)
        requires
            pow2(64) == 0x1_0000_0000_0000_0000,
    ;
}

/// The number of bits that `sig` takes.
pub fn bit_length(sig: u128) -> (l: u64)
    ensures
        l <= 128,
        sig < pow2(l as nat),
        l > 0 ==> sig >= pow2((l - 1) as nat),
        l == 0 <==> sig == 0,
{
    proof {
        lemma2_to64();
    }
    let mut rest: u128 = sig;
    let mut l: u64 = 0;
    let ghost mut p: nat = 1;
    while rest > 0
        invariant
            l <= 128,
            p == pow2(l as nat),
            p > 0,
            rest == sig as nat / p,
            l == 0 ==> rest == sig,
            l > 0 ==> sig >= pow2((l - 1) as nat),
        decreases rest,
    {
        proof {
            lemma_pow2_unfold((l + 1) as nat);
            assert(sig >= p) by {
                if sig < p {
                    vstd::arithmetic::div_mod::lemma_basic_div(sig as int, p as int);
                }
            }
            if l == 128 {
                lemma_pow2_128();
            }
            vstd::arithmetic::div_mod::lemma_div_denominator(sig as int, p as int, 2);
            assert(p * 2 == 2 * p);
            p = 2 * p;
        }
        rest = rest / 2;
        l = l + 1;
    }
    proof {
        vstd::arithmetic::div_mod::lemma_fundamental_div_mod(sig as int, p as int);
        vstd::arithmetic::div_mod::lemma_mod_bound(sig as int, p as int);
        assert(p * 0 == 0) by (nonlinear_arith);
        if l > 0 {
            lemma_pow2_pos((l - 1) as nat);
        }
    }
    l
}

/// A whole number is its own nearest whole number.
proof fn lemma_nearest_even_whole(x: nat, d: nat)
    requires
        d > 0,
    ensures
        nearest_even(x * d, d) == x,
{
    assert(nearest_even(x, 1) == x);
    lemma_nearest_even_scale(x, 1, d);
    assert(1 * d == d);
}

/// Powers of two grow with their exponent.
pub proof fn lemma_pow2_le(a: nat, b: nat)
    requires
        a <= b,
    ensures
        pow2(a) <= pow2(b),
{
    if a < b {
        lemma_pow2_strictly_increases(a, b);
    }
}

/// Bounds `sig * 2^up / 2^down` by its last place.
proof fn lemma_scaled_bounds(sig: nat, l: nat, up: nat, down: nat, e: nat)
    requires
        l > 0,
        pow2((l - 1) as nat) <= sig < pow2(l),
        l + up <= down + 53 + e,
        e > 0 ==> l + up == down + 53 + e,
    ensures
        sig * pow2(up) < pow2(down) * 0x0020_0000_0000_0000 * pow2(e),
        e > 0 ==> sig * pow2(up) >= pow2(down) * 0x0010_0000_0000_0000 * pow2(e),
{
    lemma2_to64_rest();
    lemma_pow2_pos(up);
    let c: nat = pow2(down) * 0x0020_0000_0000_0000;
    lemma_pow2_adds(down, 53);
    lemma_pow2_adds(down + 53, e);
    lemma_pow2_adds(l, up);
    lemma_pow2_le(l + up, down + 53 + e);
    assert(sig * pow2(up) < pow2(l) * pow2(up)) by (nonlinear_arith)
        requires
            sig < pow2(l),
            pow2(up) > 0,
    ;
    if e > 0 {
        let k = (l - 1) as nat;
        lemma_pow2_adds(down, 52);
        lemma_pow2_adds(down + 52, e);
        lemma_pow2_adds(k, up);
        assert(k + up == down + 52 + e);
        assert(sig * pow2(up) >= pow2(k) * pow2(up)) by (nonlinear_arith)
            requires
                sig >= pow2(k),
        ;
    }
}

/// The magnitude bits of the binary64 nearest to `sig * 2^up / 2^down` units.
pub fn round_scaled(sig: u128, up: u64, down: u64) -> (m: u64)
    requires
        sig < 0x4000_0000_0000_0000_0000_0000_0000_0000,
        up <= 0x2000,
        down <= 0x2000,
    ensures
        m == rounded(sig as nat * pow2(up as nat), pow2(down as nat)),
{
    let ghost n: nat = sig as nat * pow2(up as nat);
    let ghost d: nat = pow2(down as nat);
    proof {
        lemma_pow2_pos(up as nat);
        lemma_pow2_pos(down as nat);
    }
    if sig == 0 {
        proof {
            assert(n == 0) by (nonlinear_arith)
                requires
                    n == 0 * pow2(up as nat),
            ;
            lemma2_to64();
            assert(d * 0x0020_0000_0000_0000 * pow2(0) > 0) by (nonlinear_arith)
                requires
                    d > 0,
                    pow2(0) == 1,
            ;
            lemma_rounded_at(n, d, 0);
            assert(d * pow2(0) == d) by (nonlinear_arith)
                requires
                    pow2(0) == 1,
            ;
            lemma_nearest_even_whole(0, d);
            assert(0 * d == 0);
        }
        return 0;
    }
    let l: u64 = bit_length(sig);
    let e: u64 = if l + up > down + 53 {
        l + up - down - 53
    } else {
        0
    };
    let ghost full: nat = d * pow2(e as nat);
    proof {
        lemma_scaled_bounds(sig as nat, l as nat, up as nat, down as nat, e as nat);
        lemma_rounded_at(n, d, e as nat);
        lemma_pow2_adds(down as nat, e as nat);
        lemma_pow2_pos((down + e) as nat);
    }
    let q: u128 = if up >= down + e {
        let s: u64 = up - down - e;
        let p: u128 = power_of_two(s);
        proof {
            lemma_pow2_pos(s as nat);
            lemma_pow2_adds(s as nat, (down + e) as nat);
            lemma_pow2_adds(l as nat, s as nat);
            lemma_pow2_le((l + s) as nat, 53);
            lemma2_to64_rest();
            assert(sig * p < pow2(l as nat) * p) by (nonlinear_arith)
                requires
                    sig < pow2(l as nat),
                    p > 0,
            ;
            assert(n == (sig * p) * full) by (nonlinear_arith)
                requires
                    n == sig * (p * full),
            ;
            lemma_nearest_even_whole((sig * p) as nat, full);
        }
        sig * p
    } else {
        let t: u64 = down + e - up;
        proof {
            lemma_pow2_adds(t as nat, up as nat);
            lemma_pow2_pos(t as nat);
            lemma_nearest_even_scale(sig as nat, pow2(t as nat), pow2(up as nat));
            assert(full == pow2(t as nat) * pow2(up as nat));
        }
        if t < 128 {
            let p: u128 = power_of_two(t);
            let q: u128 = sig / p;
            let r: u128 = sig % p;
            if r > p - r || (r == p - r && q % 2 == 1) {
                q + 1
            } else {
                q
            }
        } else {
            proof {
                lemma_pow2_le(128, t as nat);
                lemma_pow2_128();
                vstd::arithmetic::div_mod::lemma_basic_div(sig as int, pow2(t as nat) as int);
                vstd::arithmetic::div_mod::lemma_small_mod(sig as nat, pow2(t as nat));
            }
            0
        }
    };
    let m: u128 = e as u128 * HIDDEN_BIT as u128 + q;
    if m >= INFINITY_BITS as u128 {
        INFINITY_BITS
    } else {
        m as u64
    }
}

/// Rounds `q * d + r` over `d` to `q` or to the whole number after it.
proof fn lemma_nearest_even_parts(q: nat, r: nat, d: nat)
    requires
        r < d,
    ensures
        2 * r < d ==> nearest_even(q * d + r, d) == q,
        2 * r > d ==> nearest_even(q * d + r, d) == q + 1,
{
    vstd::arithmetic::div_mod::lemma_fundamental_div_mod_converse(
        (q * d + r) as int,
        d as int,
        q as int,
        r as int,
    );
}

/// The significand that the magnitude bits `m` hold.
pub open spec fn significand(m: nat) -> nat {
    if m < HIDDEN_BIT {
        m
    } else {
        m % (HIDDEN_BIT as nat) + HIDDEN_BIT as nat
    }
}

/// The exponent of the last place of the magnitude bits `m`.
pub open spec fn exponent(m: nat) -> nat {
    if m < HIDDEN_BIT {
        0
    } else {
        (m / (HIDDEN_BIT as nat) - 1) as nat
    }
}

/// A significand in its last place is the magnitude.
pub proof fn lemma_units_parts(m: nat)
    ensures
        units(m) == significand(m) * pow2(exponent(m)),
        significand(m) < 0x0020_0000_0000_0000,
        exponent(m) > 0 ==> significand(m) >= 0x0010_0000_0000_0000,
        m == exponent(m) * HIDDEN_BIT + significand(m),
{
    lemma2_to64();
    if m < HIDDEN_BIT {
        assert(m * pow2(0) == m) by (nonlinear_arith)
            requires
                pow2(0) == 1,
        ;
    }
}

/// A magnitude that binary64 holds is rounded to itself.
pub proof fn lemma_rounded_exact(m: nat)
    requires
        m <= INFINITY_BITS,
    ensures
        rounded(units(m), 1) == m,
{
    lemma_units_parts(m);
    let s = significand(m);
    let e = exponent(m);
    let p = pow2(e);
    lemma_pow2_pos(e);
    assert(s * p < 0x0020_0000_0000_0000 * p) by (nonlinear_arith)
        requires
            s < 0x0020_0000_0000_0000,
            p > 0,
    ;
    if e > 0 {
        assert(s * p >= 0x0010_0000_0000_0000 * p) by (nonlinear_arith)
            requires
                s >= 0x0010_0000_0000_0000,
        ;
    }
    lemma_rounded_at(units(m), 1, e);
    lemma_nearest_even_whole(s, p);
    assert(1 * p == p);
}

/// Greater magnitude bits stand for a greater magnitude.
pub proof fn lemma_units_increase(a: nat, b: nat)
    requires
        a < b,
    ensures
        units(a) < units(b),
{
    lemma_units_parts(a);
    lemma_units_parts(b);
    let (sa, ea, pa) = (significand(a), exponent(a), pow2(exponent(a)));
    let (sb, eb, pb) = (significand(b), exponent(b), pow2(exponent(b)));
    lemma_pow2_pos(ea);
    if ea == eb {
        assert(sa * pa < sb * pa) by (nonlinear_arith)
            requires
                sa < sb,
                pa > 0,
        ;
    } else {
        assert(ea < eb);
        lemma_pow2_unfold((ea + 1) as nat);
        lemma_pow2_le((ea + 1) as nat, eb);
        assert(sa * pa < 0x0020_0000_0000_0000 * pa) by (nonlinear_arith)
            requires
                sa < 0x0020_0000_0000_0000,
                pa > 0,
        ;
        assert(0x0010_0000_0000_0000 * (2 * pa) <= sb * pb) by (nonlinear_arith)
            requires
                2 * pa <= pb,
                0x0010_0000_0000_0000 <= sb,
        ;
    }
}

/// What is small against the last place of `m` is rounded away when it is
/// added to `m` or taken from it.
pub proof fn lemma_rounded_far(m: nat, small: nat)
    requires
        m < INFINITY_BITS,
        exponent(m) > 0,
        4 * small < pow2(exponent(m)),
    ensures
        rounded(units(m) + small, 1) == m,
        units(m) >= small,
        rounded((units(m) - small) as nat, 1) == m,
{
    lemma_units_parts(m);
    let s = significand(m);
    let e = exponent(m);
    let p = pow2(e);
    lemma_pow2_pos(e);
    let up = units(m) + small;
    assert(s * p + small < 0x0020_0000_0000_0000 * p) by (nonlinear_arith)
        requires
            s < 0x0020_0000_0000_0000,
            small < p,
    ;
    assert(s * p >= 0x0010_0000_0000_0000 * p) by (nonlinear_arith)
        requires
            s >= 0x0010_0000_0000_0000,
    ;
    lemma_rounded_at(up, 1, e);
    lemma_nearest_even_parts(s, small, p);
    assert(1 * p == p);
    let down = (units(m) - small) as nat;
    if small == 0 {
    } else if s > 0x0010_0000_0000_0000 {
        let t = (s - 1) as nat;
        assert(s * p == t * p + p) by (nonlinear_arith)
            requires
                s == t + 1,
        ;
        assert(t * p >= 0x0010_0000_0000_0000 * p) by (nonlinear_arith)
            requires
                t >= 0x0010_0000_0000_0000,
        ;
        lemma_rounded_at(down, 1, e);
        lemma_nearest_even_parts(t, (p - small) as nat, p);
    } else {
        let f = (e - 1) as nat;
        let h = pow2(f);
        lemma_pow2_unfold(e);
        lemma_pow2_pos(f);
        assert(s * p == 0x0020_0000_0000_0000 * h) by (nonlinear_arith)
            requires
                s == 0x0010_0000_0000_0000,
                p == 2 * h,
        ;
        let t: nat = 0x001f_ffff_ffff_ffff;
        assert(0x0020_0000_0000_0000 * h == t * h + h) by (nonlinear_arith)
            requires
                t == 0x001f_ffff_ffff_ffff,
        ;
        assert(t * h >= 0x0010_0000_0000_0000 * h) by (nonlinear_arith)
            requires
                t == 0x001f_ffff_ffff_ffff,
        ;
        lemma_rounded_at(down, 1, f);
        lemma_nearest_even_parts(t, (h - small) as nat, h);
        assert(1 * h == h);
    }
}

/// A remainder that the cut at `2 * t` cannot see apart from one half may be
/// replaced by one half.
proof fn lemma_nearest_even_sticky(q: nat, r: nat, d: nat, half: nat)
    requires
        r < d,
        half > 0,
    ensures
        nearest_even(q * d + r, d * (2 * half)) == nearest_even(
            2 * q + if r == 0 {
                0nat
            } else {
                1
            },
            2 * (2 * half),
        ),
{
    let t: nat = 2 * half;
    let s: nat = if r == 0 {
        0
    } else {
        1
    };
    let c = q / t;
    let rho = q % t;
    vstd::arithmetic::div_mod::lemma_fundamental_div_mod(q as int, t as int);
    assert(q * d + r == c * (d * t) + (rho * d + r)) by (nonlinear_arith)
        requires
            q == t * c + rho,
    ;
    assert(rho * d + r < d * t) by (nonlinear_arith)
        requires
            rho + 1 <= t,
            r < d,
    ;
    vstd::arithmetic::div_mod::lemma_fundamental_div_mod_converse(
        (q * d + r) as int,
        (d * t) as int,
        c as int,
        (rho * d + r) as int,
    );
    assert(2 * q + s == c * (2 * t) + (2 * rho + s)) by (nonlinear_arith)
        requires
            q == t * c + rho,
    ;
    vstd::arithmetic::div_mod::lemma_fundamental_div_mod_converse(
        (2 * q + s) as int,
        (2 * t) as int,
        c as int,
        (2 * rho + s) as int,
    );
    if r == 0 {
        assert((2 * (rho * d) > d * t) == (2 * rho > t)) by (nonlinear_arith)
            requires
                d > 0,
        ;
        assert((2 * (rho * d) == d * t) == (2 * rho == t)) by (nonlinear_arith)
            requires
                d > 0,
        ;
    } else if rho >= half {
        assert(2 * (rho * d + r) > d * t) by (nonlinear_arith)
            requires
                rho >= half,
                t == 2 * half,
                r > 0,
        ;
    } else {
        assert(2 * (rho * d + r) < d * t) by (nonlinear_arith)
            requires
                rho + 1 <= half,
                t == 2 * half,
                r < d,
        ;
    }
}

/// Where a quotient has bits to spare, one more bit that tells whether there
/// is a remainder stands for the remainder.
proof fn lemma_rounded_sticky(q: nat, r: nat, d: nat, up: nat, down: nat)
    requires
        r < d,
        q >= 0x0040_0000_0000_0000,
    ensures
        rounded((q * d + r) * pow2(up), d * pow2(down)) == rounded(
            (2 * q + if r == 0 {
                0nat
            } else {
                1
            }) * pow2(up),
            pow2(down + 1),
        ),
{
    let n = q * d + r;
    let a: nat = 2 * q + if r == 0 {
        0nat
    } else {
        1
    };
    let u = pow2(up);
    let n1 = n * u;
    let d1 = d * pow2(down);
    let n2 = a * u;
    let d2 = pow2(down + 1);
    let e = last_place(n2, d2);
    lemma_pow2_pos(up);
    lemma_pow2_pos(down);
    lemma_pow2_pos(down + 1);
    lemma_last_place_bounds(n2, d2);
    lemma2_to64_rest();
    lemma_pow2_adds(down + 1, 53);
    lemma_pow2_adds(down + 54, e);
    lemma_pow2_adds(55, up);
    // The cut lies at least two bits above the end of the quotient.
    assert(pow2(55) * u <= a * u) by (nonlinear_arith)
        requires
            pow2(55) <= a,
    ;
    assert(55 + up < down + 54 + e) by {
        if 55 + up >= down + 54 + e {
            lemma_pow2_le(down + 54 + e, 55 + up);
        }
    }
    let t = (down + e - up) as nat;
    let w = pow2(t);
    let half = pow2((t - 1) as nat);
    lemma_pow2_unfold(t);
    lemma_pow2_pos((t - 1) as nat);
    lemma_pow2_adds(54 + t, up);
    assert(54 + t + up == down + 54 + e);
    lemma_pow2_adds(54, t);
    assert(a < pow2(54) * w) by {
        if a >= pow2(54) * w {
            assert(a * u >= (pow2(54) * w) * u) by (nonlinear_arith)
                requires
                    a >= pow2(54) * w,
            ;
        }
    }
    assert(pow2(54) * w == 2 * (0x0020_0000_0000_0000 * w)) by (nonlinear_arith)
        requires
            pow2(54) == 0x0040_0000_0000_0000,
    ;
    assert(q + 1 <= 0x0020_0000_0000_0000 * w);
    // Both last places agree.
    lemma_pow2_adds(t, up);
    lemma_pow2_adds(down, e);
    assert(w * u == pow2(down) * pow2(e));
    let pe = pow2(e);
    let pd = pow2(down);
    assert(n1 < d1 * 0x0020_0000_0000_0000 * pe) by {
        assert(n < d * (0x0020_0000_0000_0000 * w)) by (nonlinear_arith)
            requires
                n == q * d + r,
                r < d,
                q + 1 <= 0x0020_0000_0000_0000 * w,
        ;
        assert(n * u < d * (0x0020_0000_0000_0000 * w) * u) by (nonlinear_arith)
            requires
                n < d * (0x0020_0000_0000_0000 * w),
                u > 0,
        ;
        assert(d * (0x0020_0000_0000_0000 * w) * u == d * 0x0020_0000_0000_0000 * (w * u)) by (nonlinear_arith);
        assert(d * 0x0020_0000_0000_0000 * (pd * pe) == d * pd * 0x0020_0000_0000_0000 * pe) by (nonlinear_arith);
    }
    if e > 0 {
        lemma_pow2_adds(53 + t, up);
        lemma_pow2_adds(53, t);
        lemma_pow2_adds(down + 1, 52);
        lemma_pow2_adds(down + 53, e);
        assert(53 + t + up == down + 53 + e);
        assert(a >= pow2(53) * w) by {
            if a < pow2(53) * w {
                assert(a * u < (pow2(53) * w) * u) by (nonlinear_arith)
                    requires
                        a < pow2(53) * w,
                        u > 0,
                ;
            }
        }
        assert(pow2(53) * w == 2 * (0x0010_0000_0000_0000 * w)) by (nonlinear_arith)
            requires
                pow2(53) == 0x0020_0000_0000_0000,
        ;
        assert(q >= 0x0010_0000_0000_0000 * w);
        assert(n >= d * (0x0010_0000_0000_0000 * w)) by (nonlinear_arith)
            requires
                n == q * d + r,
                q >= 0x0010_0000_0000_0000 * w,
        ;
        assert(n * u >= d * (0x0010_0000_0000_0000 * w) * u) by (nonlinear_arith)
            requires
                n >= d * (0x0010_0000_0000_0000 * w),
        ;
        assert(d * (0x0010_0000_0000_0000 * w) * u == d * 0x0010_0000_0000_0000 * (w * u)) by (nonlinear_arith);
        assert(d * 0x0010_0000_0000_0000 * (pd * pe) == d * pd * 0x0010_0000_0000_0000 * pe) by (nonlinear_arith);
    }
    assert(d1 > 0) by (nonlinear_arith)
        requires
            d1 == d * pd,
            d > 0,
            pd > 0,
    ;
    lemma_last_place_unique(n1, d1, e);
    // Both are cut at the same place.
    assert(d1 * pe == (d * w) * u) by {
        assert(d * pd * pe == d * (pd * pe)) by (nonlinear_arith);
        assert(d * (w * u) == (d * w) * u) by (nonlinear_arith);
    }
    assert(d * w > 0) by (nonlinear_arith)
        requires
            d > 0,
            w > 0,
    ;
    lemma_nearest_even_scale(n, d * w, u);
    lemma_pow2_unfold(down + 1);
    assert(d2 * pe == (2 * w) * u) by {
        assert((2 * pd) * pe == 2 * (pd * pe)) by (nonlinear_arith);
        assert(2 * (w * u) == (2 * w) * u) by (nonlinear_arith);
    }
    lemma_nearest_even_scale(a, 2 * w, u);
    lemma_nearest_even_sticky(q, r, d, half);
}

/// Zero is rounded to zero.
pub proof fn lemma_rounded_zero(d: nat)
    requires
        d > 0,
    ensures
        rounded(0, d) == 0,
{
    lemma2_to64();
    assert(d * pow2(0) == d) by (nonlinear_arith)
        requires
            pow2(0) == 1,
    ;
    lemma_nearest_even_whole(0, d);
    assert(0 * d == 0);
}

/// The magnitude bits of the binary64 nearest to `(n * 2^up) / (d * 2^down)`
/// units.
pub fn round_quotient(n: u64, up: u64, d: u64, down: u64) -> (m: u64)
    requires
        d > 0,
        up <= 0x1000,
        down <= 0x1000,
    ensures
        m == rounded(n as nat * pow2(up as nat), d as nat * pow2(down as nat)),
{
    let ghost nn: nat = n as nat * pow2(up as nat);
    let ghost dd: nat = d as nat * pow2(down as nat);
    proof {
        lemma_pow2_pos(up as nat);
        lemma_pow2_pos(down as nat);
        assert(dd > 0) by (nonlinear_arith)
            requires
                dd == d as nat * pow2(down as nat),
                d > 0,
                pow2(down as nat) > 0,
        ;
    }
    if n == 0 {
        proof {
            assert(nn == 0) by (nonlinear_arith)
                requires
                    nn == 0 * pow2(up as nat),
            ;
            lemma_rounded_zero(dd);
        }
        return 0;
    }
    let l: u64 = bit_length(n as u128);
    proof {
        lemma2_to64();
        lemma2_to64_rest();
        if l > 64 {
            lemma_pow2_le(64, (l - 1) as nat);
        }
    }
    let shift: u64 = 125 - l;
    let p: u128 = power_of_two(shift);
    let ghost low: nat = pow2((l - 1) as nat);
    proof {
        lemma_pow2_pos(shift as nat);
        lemma_pow2_adds(l as nat, shift as nat);
        lemma_pow2_adds((l - 1) as nat, shift as nat);
        lemma_pow2_adds(64, 61);
        lemma_pow2_adds(64, 60);
        assert(pow2(125) == 0x2000_0000_0000_0000_0000_0000_0000_0000) by (nonlinear_arith)
            requires
                pow2(125) == pow2(64) * pow2(61),
                pow2(64) == 0x1_0000_0000_0000_0000,
                pow2(61) == 0x2000_0000_0000_0000,
        ;
        assert(n * p < pow2(l as nat) * p) by (nonlinear_arith)
            requires
                n < pow2(l as nat),
                p > 0,
        ;
        assert(n * p >= low * p) by (nonlinear_arith)
            requires
                n >= low,
        ;
    }
    let num: u128 = n as u128 * p;
    let q: u128 = num / d as u128;
    let r: u128 = num % d as u128;
    let tail: u128 = if r == 0 {
        0
    } else {
        1
    };
    proof {
        vstd::arithmetic::div_mod::lemma_fundamental_div_mod(num as int, d as int);
        assert(q >= 0x0040_0000_0000_0000) by (nonlinear_arith)
            requires
                num == d * q + r,
                r < d,
                num >= pow2(64) * pow2(60),
                pow2(64) == 0x1_0000_0000_0000_0000,
                pow2(60) == 0x1000_0000_0000_0000,
                d < 0x1_0000_0000_0000_0000,
        ;
        assert(q <= num) by (nonlinear_arith)
            requires
                num == d * q + r,
                d >= 1,
                q >= 0,
                r >= 0,
        ;
        assert(num == q as nat * d as nat + r as nat) by (nonlinear_arith)
            requires
                num == d * q + r,
        ;
        let k: nat = p as nat;
        lemma_rounded_sticky(q as nat, r as nat, d as nat, up as nat, (down + shift) as nat);
        lemma_pow2_adds(down as nat, shift as nat);
        lemma_rounded_scale(nn, dd, k);
        assert(nn * k == num as nat * pow2(up as nat)) by (nonlinear_arith)
            requires
                nn == n as nat * pow2(up as nat),
                num == n as nat * k,
        ;
        assert(dd * k == d as nat * pow2((down + shift) as nat)) by (nonlinear_arith)
            requires
                dd == d as nat * pow2(down as nat),
                pow2((down + shift) as nat) == pow2(down as nat) * k,
        ;
    }
    round_scaled(2 * q + tail, up, down + shift + 1)
}

/// Greater fractions are rounded to greater magnitudes.
pub proof fn law_rounding_is_monotonic(n1: nat, n2: nat, d: nat)
    requires
        d > 0,
        n1 <= n2,
    ensures
        rounded(n1, d) <= rounded(n2, d),
{
    let e1 = last_place(n1, d);
    let e2 = last_place(n2, d);
    let p1 = d * pow2(e1);
    let p2 = d * pow2(e2);
    lemma_last_place_bounds(n1, d);
    lemma_last_place_bounds(n2, d);
    lemma_pow2_pos(e1);
    lemma_pow2_pos(e2);
    assert(p1 > 0 && p2 > 0) by (nonlinear_arith)
        requires
            p1 == d * pow2(e1),
            p2 == d * pow2(e2),
            d > 0,
            pow2(e1) > 0,
            pow2(e2) > 0,
    ;
    assert(n1 < 0x0020_0000_0000_0000 * p1) by (nonlinear_arith)
        requires
            n1 < d * 0x0020_0000_0000_0000 * pow2(e1),
            p1 == d * pow2(e1),
    ;
    let q1 = nearest_even(n1, p1);
    let q2 = nearest_even(n2, p2);
    vstd::arithmetic::div_mod::lemma_fundamental_div_mod(n1 as int, p1 as int);
    vstd::arithmetic::div_mod::lemma_fundamental_div_mod(n2 as int, p2 as int);
    if e1 == e2 {
        vstd::arithmetic::div_mod::lemma_div_is_ordered(n1 as int, n2 as int, p1 as int);
        assert(q1 <= q2);
    } else {
        assert(e1 < e2) by {
            if e2 < e1 {
                lemma_pow2_unfold((e2 + 1) as nat);
                lemma_pow2_le((e2 + 1) as nat, e1);
                assert(d * 0x0010_0000_0000_0000 * pow2(e1) >= d * 0x0020_0000_0000_0000 * pow2(e2))
                    by (nonlinear_arith)
                    requires
                        pow2(e1) >= 2 * pow2(e2),
                ;
            }
        }
        assert(n2 >= 0x0010_0000_0000_0000 * p2) by (nonlinear_arith)
            requires
                n2 >= d * 0x0010_0000_0000_0000 * pow2(e2),
                p2 == d * pow2(e2),
        ;
        assert(n1 / p1 < 0x0020_0000_0000_0000) by (nonlinear_arith)
            requires
                n1 < 0x0020_0000_0000_0000 * p1,
                p1 > 0,
        ;
        assert(n2 / p2 >= 0x0010_0000_0000_0000) by (nonlinear_arith)
            requires
                n2 >= 0x0010_0000_0000_0000 * p2,
                p2 > 0,
        ;
        assert(e1 * (HIDDEN_BIT as nat) + HIDDEN_BIT <= e2 * (HIDDEN_BIT as nat)) by (nonlinear_arith)
            requires
                e1 + 1 <= e2,
        ;
    }
}

/// No whole number of units but zero is rounded to zero.
pub proof fn lemma_rounded_at_least_one(n: nat)
    requires
        n > 0,
    ensures
        rounded(n, 1) > 0,
{
    assert(units(1) == 1);
    lemma_rounded_exact(1);
    law_rounding_is_monotonic(1, n, 1);
}

/// The magnitude of a significand in a given last place.
proof fn lemma_units_at(e: nat, q: nat)
    requires
        q <= 0x0020_0000_0000_0000,
        e > 0 ==> q >= 0x0010_0000_0000_0000,
    ensures
        units(e * (HIDDEN_BIT as nat) + q) == q * pow2(e),
{
    let m = e * (HIDDEN_BIT as nat) + q;
    lemma_units_parts(m);
    lemma_pow2_unfold((e + 1) as nat);
    if q == 0x0020_0000_0000_0000 {
        assert(exponent(m) == e + 1);
        assert(significand(m) == 0x0010_0000_0000_0000);
        assert(0x0010_0000_0000_0000 * (2 * pow2(e)) == 0x0020_0000_0000_0000 * pow2(e)) by (nonlinear_arith);
    } else {
        assert(exponent(m) == e);
        assert(significand(m) == q);
    }
}

/// A significand in any last place short of infinity is held as it is.
pub proof fn lemma_held(s: nat, e: nat)
    requires
        s < 0x0020_0000_0000_0000,
        e <= 2045,
    ensures
        rounded(s * pow2(e), 1) < INFINITY_BITS,
        units(rounded(s * pow2(e), 1)) == s * pow2(e),
{
    lemma2_to64_rest();
    lemma_pow2_le(e, 2045);
    lemma_pow2_pos(e);
    lemma_infinity();
    lemma_pow2_adds(53, 2045);
    assert(s * pow2(e) < pow2(53) * pow2(2045)) by (nonlinear_arith)
        requires
            s < pow2(53),
            0 < pow2(e) <= pow2(2045),
    ;
    lemma_held_below_infinity(s, e);
}

/// Infinity counts as `2^2098` units.
proof fn lemma_infinity()
    ensures
        units(INFINITY_BITS as nat) == pow2(2098),
{
    lemma2_to64_rest();
    lemma_pow2_adds(52, 2046);
}

/// A significand in any last place is held as it is, below infinity.
proof fn lemma_held_below_infinity(s: nat, e: nat)
    requires
        s < 0x0020_0000_0000_0000,
        s * pow2(e) < pow2(2098),
    ensures
        rounded(s * pow2(e), 1) < INFINITY_BITS,
        units(rounded(s * pow2(e), 1)) == s * pow2(e),
{
    let k = pow2(e);
    let v = s * k;
    lemma_pow2_pos(e);
    let f = last_place(v, 1);
    let w = pow2(f);
    lemma_last_place_bounds(v, 1);
    lemma_pow2_pos(f);
    // The last place of the number is not above the given one.
    assert(f <= e) by {
        if f > e {
            lemma_pow2_le(e + 1, f);
            lemma_pow2_unfold(e + 1);
            assert(v < 0x0020_0000_0000_0000 * k) by (nonlinear_arith)
                requires
                    v == s * k,
                    s < 0x0020_0000_0000_0000,
                    k > 0,
            ;
        }
    }
    let q = s * pow2((e - f) as nat);
    lemma_pow2_adds((e - f) as nat, f);
    assert(v == q * w) by (nonlinear_arith)
        requires
            v == s * k,
            k == pow2((e - f) as nat) * w,
            q == s * pow2((e - f) as nat),
    ;
    lemma_nearest_even_whole(q, w);
    assert(1 * w == w);
    assert(q < 0x0020_0000_0000_0000) by (nonlinear_arith)
        requires
            q * w < 0x0020_0000_0000_0000 * w,
    ;
    if f > 0 {
        assert(q >= 0x0010_0000_0000_0000) by (nonlinear_arith)
            requires
                q * w >= 0x0010_0000_0000_0000 * w,
                w > 0,
        ;
    }
    assert(f <= 2045) by {
        if f >= 2046 {
            lemma2_to64_rest();
            lemma_pow2_le(2046, f);
            lemma_pow2_adds(52, 2046);
        }
    }
    assert(f * (HIDDEN_BIT as nat) <= 2045 * (HIDDEN_BIT as nat)) by (nonlinear_arith)
        requires
            f <= 2045,
    ;
    lemma_units_at(f, q);
}

/// What is no more than a power of two is rounded to no more than it.
pub proof fn lemma_rounded_at_most(n: nat, d: nat, e: nat)
    requires
        d > 0,
        e < 2098,
        n <= pow2(e) * d,
    ensures
        rounded(n, d) < INFINITY_BITS,
        units(rounded(n, d)) <= pow2(e),
{
    lemma_pow2_strictly_increases(e, 2098);
    lemma_held_below_infinity(1, e);
    assert(1 * pow2(e) == pow2(e) && 1 * d == d);
    lemma_rounded_scale(pow2(e), 1, d);
    law_rounding_is_monotonic(n, pow2(e) * d, d);
    let (x, y) = (rounded(n, d), rounded(pow2(e), 1));
    if x < y {
        lemma_units_increase(x, y);
    }
}

/// Rounding commutes with scaling up by a power of two, short of infinity, where
/// there are no subnormals involved.
pub proof fn lemma_rounded_scaled_up(n: nat, d: nat, j: nat)
    requires
        d > 0,
        n >= 0x0010_0000_0000_0000 * d,
        rounded(n * pow2(j), d) < INFINITY_BITS,
    ensures
        rounded(n, d) < INFINITY_BITS,
        units(rounded(n * pow2(j), d)) == units(rounded(n, d)) * pow2(j),
{
    let e = last_place(n, d);
    let (p, w) = (pow2(e), pow2(j));
    lemma_last_place_bounds(n, d);
    lemma_pow2_pos(e);
    lemma_pow2_pos(j);
    lemma_pow2_adds(e, j);
    lemma2_to64();
    let full = d * p;
    assert(full > 0) by (nonlinear_arith)
        requires
            full == d * p,
            d > 0,
            p > 0,
    ;
    if e == 0 {
        assert(d * 0x0010_0000_0000_0000 * p == 0x0010_0000_0000_0000 * d) by (nonlinear_arith)
            requires
                p == 1,
        ;
    }
    assert(n * w < d * 0x0020_0000_0000_0000 * (p * w)) by (nonlinear_arith)
        requires
            n < d * 0x0020_0000_0000_0000 * p,
            w > 0,
    ;
    assert(n * w >= d * 0x0010_0000_0000_0000 * (p * w)) by (nonlinear_arith)
        requires
            n >= d * 0x0010_0000_0000_0000 * p,
            w > 0,
    ;
    lemma_last_place_unique(n * w, d, e + j);
    assert(d * (p * w) == full * w) by (nonlinear_arith)
        requires
            full == d * p,
    ;
    lemma_nearest_even_scale(n, full, w);
    let q = nearest_even(n, full);
    // The significand takes 53 bits, or carries into one more.
    let c = n / full;
    vstd::arithmetic::div_mod::lemma_fundamental_div_mod(n as int, full as int);
    assert(full * c == c * full && (c + 1) * full == c * full + full) by (nonlinear_arith);
    assert(0x0010_0000_0000_0000 <= c < 0x0020_0000_0000_0000) by (nonlinear_arith)
        requires
            c * full <= n < (c + 1) * full,
            n < d * 0x0020_0000_0000_0000 * p,
            n >= d * 0x0010_0000_0000_0000 * p,
            full == d * p,
    ;
    assert((e + j) * (HIDDEN_BIT as nat) == e * (HIDDEN_BIT as nat) + j * (HIDDEN_BIT as nat)) by (nonlinear_arith);
    assert(j * (HIDDEN_BIT as nat) >= 0) by (nonlinear_arith);
    lemma_units_at(e, q);
    lemma_units_at(e + j, q);
    assert(q * (p * w) == (q * p) * w) by (nonlinear_arith);
}

/// Rounding a whole number of units commutes with scaling up by a power of two,
/// short of infinity.
pub proof fn lemma_whole_scaled_up(n: nat, j: nat)
    requires
        rounded(n * pow2(j), 1) < INFINITY_BITS,
    ensures
        rounded(n, 1) < INFINITY_BITS,
        units(rounded(n * pow2(j), 1)) == units(rounded(n, 1)) * pow2(j),
{
    if n >= 0x0010_0000_0000_0000 {
        lemma_rounded_scaled_up(n, 1, j);
    } else {
        let v = n * pow2(j);
        lemma_infinity();
        lemma_rounded_exact(INFINITY_BITS as nat);
        if v >= pow2(2098) {
            law_rounding_is_monotonic(pow2(2098), v, 1);
        }
        lemma_held_below_infinity(n, j);
        lemma2_to64();
        lemma_held(n, 0);
        assert(n * pow2(0) == n) by (nonlinear_arith)
            requires
                pow2(0) == 1,
        ;
    }
}

/// No magnitude that binary64 holds is nearer to a fraction than the one that
/// the fraction is rounded to.
pub proof fn law_rounding_is_nearest(n: nat, d: nat, m: nat)
    requires
        d > 0,
        rounded(n, d) < INFINITY_BITS,
    ensures
        ({
            let r = rounded(n, d);
            let off = n - units(r) * d;
            let other = n - units(m) * d;
            (if off < 0 {
                -off
            } else {
                off
            }) <= (if other < 0 {
                -other
            } else {
                other
            })
        }),
{
    let e = last_place(n, d);
    let w = pow2(e);
    let p = d * w;
    let q = nearest_even(n, p);
    let r = rounded(n, d);
    lemma_last_place_bounds(n, d);
    lemma_pow2_pos(e);
    assert(p > 0) by (nonlinear_arith)
        requires
            p == d * w,
            d > 0,
            w > 0,
    ;
    let c = n / p;
    let rem = n % p;
    vstd::arithmetic::div_mod::lemma_fundamental_div_mod(n as int, p as int);
    assert(n == c * p + rem) by (nonlinear_arith)
        requires
            n == p * c + rem,
    ;
    assert(c < 0x0020_0000_0000_0000) by (nonlinear_arith)
        requires
            c * p <= n,
            n < d * 0x0020_0000_0000_0000 * w,
            p == d * w,
    ;
    if e > 0 {
        assert(c >= 0x0010_0000_0000_0000) by (nonlinear_arith)
            requires
                n == c * p + rem,
                rem < p,
                n >= d * 0x0010_0000_0000_0000 * w,
                p == d * w,
        ;
    }
    lemma_units_at(e, q);
    assert((q * w) * d == q * p) by (nonlinear_arith)
        requires
            p == d * w,
    ;
    assert((c + 1) * p == c * p + p) by (nonlinear_arith);
    if m > r {
        // The next magnitude is at least one last place further up.
        let next = (r + 1) as nat;
        if q == 0x0020_0000_0000_0000 {
            lemma_units_parts(next);
            lemma_pow2_unfold((e + 1) as nat);
            assert(exponent(next) == e + 1);
            assert(significand(next) == 0x0010_0000_0000_0001);
            assert(0x0010_0000_0000_0001 * (2 * w) >= (q + 1) * w) by (nonlinear_arith)
                requires
                    q == 0x0020_0000_0000_0000,
            ;
        } else {
            lemma_units_at(e, q + 1);
        }
        if m > next {
            lemma_units_increase(next, m);
        }
        assert(units(m) * d >= ((q + 1) * w) * d) by (nonlinear_arith)
            requires
                units(m) >= (q + 1) * w,
        ;
        assert(((q + 1) * w) * d == q * p + p) by (nonlinear_arith)
            requires
                p == d * w,
        ;
    } else if m < r {
        lemma_units_increase(m, r);
        assert(units(m) * d <= units(r) * d) by (nonlinear_arith)
            requires
                units(m) <= units(r),
        ;
        if q > c {
            // The magnitude before is one last place further down.
            let prev = (r - 1) as nat;
            lemma_units_at(e, c);
            if m < prev {
                lemma_units_increase(m, prev);
            }
            assert(units(m) * d <= (c * w) * d) by (nonlinear_arith)
                requires
                    units(m) <= c * w,
            ;
            assert((c * w) * d == c * p) by (nonlinear_arith)
                requires
                    p == d * w,
            ;
        }
    }
}

/// Rounding is off by no more than one part in `2^53`, or, among the subnormals, by
/// no more than half a unit.
pub proof fn law_rounding_error(n: nat, d: nat)
    requires
        d > 0,
        rounded(n, d) < INFINITY_BITS,
    ensures
        ({
            let off = n - units(rounded(n, d)) * d;
            ||| -(n as int) <= off * 0x0020_0000_0000_0000 <= n
            ||| -(d as int) <= 2 * off <= d
        }),
        d == 1 ==> -(n as int) <= (n - units(rounded(n, d))) * 0x0020_0000_0000_0000 <= n,
{
    let e = last_place(n, d);
    let p = pow2(e);
    let w = d * p;
    lemma_last_place_bounds(n, d);
    lemma_pow2_pos(e);
    assert(w > 0) by (nonlinear_arith)
        requires
            w == d * p,
            d > 0,
            p > 0,
    ;
    let q = nearest_even(n, w);
    let (c, r) = (n / w, n % w);
    vstd::arithmetic::div_mod::lemma_fundamental_div_mod(n as int, w as int);
    assert(w * c == c * w) by (nonlinear_arith);
    // The significand takes no more than 53 bits, and one more only by carrying.
    assert(c < 0x0020_0000_0000_0000) by (nonlinear_arith)
        requires
            c * w <= n,
            n < d * 0x0020_0000_0000_0000 * p,
            w == d * p,
    ;
    if e > 0 {
        assert(c >= 0x0010_0000_0000_0000) by (nonlinear_arith)
            requires
                n == c * w + r,
                r < w,
                n >= d * 0x0010_0000_0000_0000 * p,
                w == d * p,
        ;
    }
    lemma_units_at(e, q);
    let off = n - units(rounded(n, d)) * d;
    assert((q * p) * d == q * w) by (nonlinear_arith)
        requires
            w == d * p,
    ;
    assert((c + 1) * w == c * w + w) by (nonlinear_arith);
    assert(-(w as int) <= 2 * off <= w);
    if e > 0 {
        assert(0x0010_0000_0000_0000 * w <= n) by (nonlinear_arith)
            requires
                n >= d * 0x0010_0000_0000_0000 * p,
                w == d * p,
        ;
    } else {
        lemma2_to64();
        assert(w == d) by (nonlinear_arith)
            requires
                w == d * p,
                p == 1,
        ;
    }
}

} // verus!
