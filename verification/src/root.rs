//! Correctly rounded square roots.

use vstd::prelude::*;
use vstd::arithmetic::power2::*;
use crate::rounding::{
    bit_length, last_place, lemma_last_place_bounds, lemma_nearest_even_scale, lemma_pow2_le,
    nearest_even, power_of_two, round_scaled, rounded, HIDDEN_BIT, INFINITY_BITS,
};

verus! {

/// `x * x`.
pub open spec fn square(x: nat) -> nat {
    x * x
}

/// Whether `q` is the greatest whole number not above `sqrt(n) / d`.
pub open spec fn is_floor_root(n: nat, d: nat, q: nat) -> bool {
    square(q * d) <= n < square((q + 1) * d)
}

/// The greatest whole number not above `sqrt(n)`.
pub open spec fn floor_root(n: nat) -> nat {
    choose|q: nat| is_floor_root(n, 1, q)
}

/// The whole number nearest to `sqrt(n) / d`; of two that are equally near,
/// the even one.
pub open spec fn nearest_root(n: nat, d: nat) -> nat {
    let q = choose|q: nat| is_floor_root(n, d, q);
    let middle = square((2 * q + 1) * d);
    if 4 * n > middle || (4 * n == middle && q % 2 == 1) {
        q + 1
    } else {
        q
    }
}

/// Whether `e` is the exponent of the last place of a 53-bit significand that
/// holds `sqrt(n)`, never below that of the subnormals.
pub open spec fn is_root_place(n: nat, e: nat) -> bool {
    &&& n < square(0x0020_0000_0000_0000 * pow2(e))
    &&& e > 0 ==> n >= square(0x0010_0000_0000_0000 * pow2(e))
}

/// The magnitude bits of the binary64 nearest to `sqrt(n)` units, ties to even.
pub open spec fn rounded_root(n: nat) -> nat {
    let e = choose|e: nat| is_root_place(n, e);
    let m = e * (HIDDEN_BIT as nat) + nearest_root(n, pow2(e));
    if m >= INFINITY_BITS {
        INFINITY_BITS as nat
    } else {
        m
    }
}

/// Squares are ordered as their roots are.
proof fn lemma_square_le(a: nat, b: nat)
    ensures
        a <= b ==> square(a) <= square(b),
        square(a) < square(b) ==> a < b,
        a < b ==> square(a) < square(b),
{
    if a <= b {
        assert(a * a <= b * b) by (nonlinear_arith)
            requires
                a <= b,
        ;
    } else {
        assert(a * a >= b * b) by (nonlinear_arith)
            requires
                a >= b,
        ;
    }
    if a < b {
        assert(a * a < b * b) by (nonlinear_arith)
            requires
                a < b,
        ;
    }
}

/// There is only one floor root.
pub proof fn lemma_floor_root_unique(n: nat, d: nat, q: nat, p: nat)
    requires
        is_floor_root(n, d, q),
        is_floor_root(n, d, p),
    ensures
        p == q,
{
    lemma_square_le(q * d, (p + 1) * d);
    lemma_square_le(p * d, (q + 1) * d);
    assert(q < p + 1) by (nonlinear_arith)
        requires
            q * d < (p + 1) * d,
    ;
    assert(p < q + 1) by (nonlinear_arith)
        requires
            p * d < (q + 1) * d,
    ;
}

/// There is a floor root.
pub proof fn lemma_floor_root_exists(n: nat)
    ensures
        is_floor_root(n, 1, floor_root(n)),
    decreases n,
{
    if n == 0 {
        assert(square(0nat * 1) == 0 && square((0nat + 1) * 1) == 1) by (nonlinear_arith);
        assert(is_floor_root(0, 1, 0));
    } else {
        lemma_floor_root_exists((n - 1) as nat);
        let q = floor_root((n - 1) as nat);
        assert(q * 1 == q && (q + 1) * 1 == q + 1 && (q + 2) * 1 == q + 2);
        lemma_square_le(q + 1, q + 2);
        if n < square(q + 1) {
            assert(is_floor_root(n, 1, q));
        } else {
            assert(is_floor_root(n, 1, q + 1));
        }
    }
}

/// There is only one last place.
proof fn lemma_root_place_unique(n: nat, e: nat, f: nat)
    requires
        is_root_place(n, e),
        is_root_place(n, f),
    ensures
        e == f,
{
    if e < f {
        lemma_root_place_order(n, e, f);
    }
    if f < e {
        lemma_root_place_order(n, f, e);
    }
}

/// Of two last places of one root the lower is not below the other.
proof fn lemma_root_place_order(n: nat, e: nat, f: nat)
    requires
        is_root_place(n, e),
        is_root_place(n, f),
    ensures
        e >= f,
{
    if e < f {
        lemma_pow2_unfold((e + 1) as nat);
        lemma_pow2_le((e + 1) as nat, f);
        lemma_square_le(0x0020_0000_0000_0000 * pow2(e), 0x0010_0000_0000_0000 * pow2(f));
    }
}

/// Squaring a product.
proof fn lemma_square_product(a: nat, b: nat)
    ensures
        square(a * b) == square(a) * square(b),
{
    assert((a * b) * (a * b) == (a * a) * (b * b)) by (nonlinear_arith);
}

/// Where a floor root has bits to spare, one more bit that tells whether the
/// root is whole stands for what is beyond it.
///
/// The root in question is that of `n`, with `n * 4^down == x * 4^up`.
pub proof fn lemma_root_sticky(n: nat, x: nat, g: nat, up: nat, down: nat)
    requires
        n * square(pow2(down)) == x * square(pow2(up)),
        square(g) <= x < square(g + 1),
        g >= 0x0040_0000_0000_0000,
    ensures
        rounded_root(n) == rounded(
            (2 * g + if x == square(g) {
                0nat
            } else {
                1
            }) * pow2(up),
            pow2(down + 1),
        ),
{
    let a: nat = 2 * g + if x == square(g) {
        0nat
    } else {
        1
    };
    let u = pow2(up);
    let n2 = a * u;
    let d2 = pow2(down + 1);
    let e = last_place(n2, d2);
    lemma_pow2_pos(up);
    lemma_pow2_pos(down);
    lemma_pow2_pos(down + 1);
    lemma_pow2_pos(e);
    lemma_last_place_bounds(n2, d2);
    lemma2_to64_rest();
    lemma_pow2_adds(down + 1, 53);
    lemma_pow2_adds(down + 54, e);
    lemma_pow2_adds(55, up);
    // The cut lies at least two bits above the end of the floor root.
    assert(pow2(55) * u <= a * u) by (nonlinear_arith)
        requires
            pow2(55) <= a,
    ;
    assert(55 + up < down + 54 + e) by {
        if 55 + up >= down + 54 + e {
            lemma_pow2_le(down + 54 + e, 55 + up);
        }
    }
    let t = (down + e - up) as nat;
    let w = pow2(t);
    let half = pow2((t - 1) as nat);
    lemma_pow2_unfold(t);
    lemma_pow2_pos((t - 1) as nat);
    lemma_pow2_adds(54 + t, up);
    assert(54 + t + up == down + 54 + e);
    lemma_pow2_adds(54, t);
    assert(a < pow2(54) * w) by {
        if a >= pow2(54) * w {
            assert(a * u >= (pow2(54) * w) * u) by (nonlinear_arith)
                requires
                    a >= pow2(54) * w,
            ;
        }
    }
    assert(pow2(54) * w == 2 * (0x0020_0000_0000_0000 * w)) by (nonlinear_arith)
        requires
            pow2(54) == 0x0040_0000_0000_0000,
    ;
    assert(g + 1 <= 0x0020_0000_0000_0000 * w);
    lemma_pow2_adds(t, up);
    lemma_pow2_adds(down, e);
    let pe = pow2(e);
    let pd = pow2(down);
    assert(w * u == pd * pe);
    // Both last places agree.
    lemma_square_le(g + 1, 0x0020_0000_0000_0000 * w);
    lemma_root_rescale(n, x, 0x0020_0000_0000_0000, u, pd, w, pe);
    if e > 0 {
        lemma_pow2_adds(53 + t, up);
        lemma_pow2_adds(53, t);
        lemma_pow2_adds(down + 1, 52);
        lemma_pow2_adds(down + 53, e);
        assert(53 + t + up == down + 53 + e);
        assert(a >= pow2(53) * w) by {
            if a < pow2(53) * w {
                assert(a * u < (pow2(53) * w) * u) by (nonlinear_arith)
                    requires
                        a < pow2(53) * w,
                        u > 0,
                ;
            }
        }
        assert(pow2(53) * w == 2 * (0x0010_0000_0000_0000 * w)) by (nonlinear_arith)
            requires
                pow2(53) == 0x0020_0000_0000_0000,
        ;
        assert(g >= 0x0010_0000_0000_0000 * w);
        lemma_square_le(0x0010_0000_0000_0000 * w, g);
        lemma_root_rescale(n, x, 0x0010_0000_0000_0000, u, pd, w, pe);
    }
    assert(is_root_place(n, e));
    lemma_root_place_unique(n, e, choose|e: nat| is_root_place(n, e));
    // Both are cut at the same place.
    let c = g / w;
    let rho = g % w;
    vstd::arithmetic::div_mod::lemma_fundamental_div_mod(g as int, w as int);
    assert(c * w <= g) by (nonlinear_arith)
        requires
            g == w * c + rho,
            rho >= 0,
    ;
    assert(g + 1 <= (c + 1) * w) by (nonlinear_arith)
        requires
            g == w * c + rho,
            rho < w,
    ;
    lemma_square_le(c * w, g);
    lemma_square_le(g + 1, (c + 1) * w);
    lemma_root_rescale(n, x, c, u, pd, w, pe);
    lemma_root_rescale(n, x, c + 1, u, pd, w, pe);
    assert(is_floor_root(n, pe, c));
    lemma_floor_root_unique(n, pe, c, choose|q: nat| is_floor_root(n, pe, q));
    // Both ask whether the root is beyond the middle.
    let h = (2 * c + 1) * half;
    assert((4 * n) * square(pd) == (4 * x) * square(u)) by (nonlinear_arith)
        requires
            n * square(pd) == x * square(u),
    ;
    lemma_root_rescale(4 * n, 4 * x, 2 * c + 1, u, pd, w, pe);
    assert((2 * c + 1) * w == 2 * h) by (nonlinear_arith)
        requires
            w == 2 * half,
            h == (2 * c + 1) * half,
    ;
    assert(square(2 * h) == 4 * square(h)) by (nonlinear_arith);
    assert((x > square(h)) == (a > 2 * h) && (x == square(h)) == (a == 2 * h)) by {
        lemma_square_le(h, g);
        lemma_square_le(h + 1, g);
        lemma_square_le(g, h);
        lemma_square_le(g + 1, h);
    }
    // The same question, put to the lengthened floor root.
    let s = (a - 2 * g) as nat;
    assert(2 * h == 2 * (w * c) + w) by (nonlinear_arith)
        requires
            2 * h == (2 * c + 1) * w,
    ;
    assert(a == c * (2 * w) + (2 * rho + s)) by (nonlinear_arith)
        requires
            a == 2 * g + s,
            g == w * c + rho,
    ;
    vstd::arithmetic::div_mod::lemma_fundamental_div_mod_converse(
        a as int,
        (2 * w) as int,
        c as int,
        (2 * rho + s) as int,
    );
    assert(nearest_even(a, 2 * w) == nearest_root(n, pe));
    lemma_pow2_unfold(down + 1);
    assert(d2 * pe == (2 * w) * u) by {
        assert((2 * pd) * pe == 2 * (pd * pe)) by (nonlinear_arith);
        assert(2 * (w * u) == (2 * w) * u) by (nonlinear_arith);
    }
    lemma_nearest_even_scale(a, 2 * w, u);
}

/// Comparing a root with `b` last places, before and after the change of
/// scale.
proof fn lemma_root_rescale(n: nat, x: nat, b: nat, u: nat, pd: nat, w: nat, pe: nat)
    requires
        n * square(pd) == x * square(u),
        w * u == pd * pe,
        u > 0,
        pd > 0,
    ensures
        (square(b * w) <= x) == (square(b * pe) <= n),
        (square(b * w) == x) == (square(b * pe) == n),
{
    let left = square(b * w);
    let right = square(b * pe);
    assert((b * w) * u == (b * pe) * pd) by (nonlinear_arith)
        requires
            w * u == pd * pe,
    ;
    lemma_square_product(b * w, u);
    lemma_square_product(b * pe, pd);
    let uu = square(u);
    let dd = square(pd);
    assert(uu > 0) by (nonlinear_arith)
        requires
            uu == u * u,
            u > 0,
    ;
    assert(dd > 0) by (nonlinear_arith)
        requires
            dd == pd * pd,
            pd > 0,
    ;
    assert(left * uu == right * dd);
    assert((left <= x) == (left * uu <= x * uu)) by (nonlinear_arith)
        requires
            uu > 0,
    ;
    assert((right <= n) == (right * dd <= n * dd)) by (nonlinear_arith)
        requires
            dd > 0,
    ;
    assert((left == x) == (left * uu == x * uu)) by (nonlinear_arith)
        requires
            uu > 0,
    ;
    assert((right == n) == (right * dd == n * dd)) by (nonlinear_arith)
        requires
            dd > 0,
    ;
}

/// The greatest whole number whose square is not above `x`.
fn integer_root(x: u128) -> (g: u128)
    requires
        x < 0x4000_0000_0000_0000_0000_0000_0000_0000,
    ensures
        square(g as nat) <= x < square((g + 1) as nat),
        g < 0x8000_0000_0000_0000,
{
    let mut low: u128 = 0;
    let mut high: u128 = 0x8000_0000_0000_0000;
    assert(square(0) == 0);
    assert(square(0x8000_0000_0000_0000) == 0x4000_0000_0000_0000_0000_0000_0000_0000);
    while high - low > 1
        invariant
            low < high <= 0x8000_0000_0000_0000,
            square(low as nat) <= x < square(high as nat),
        decreases high - low,
    {
        let middle: u128 = low + (high - low) / 2;
        proof {
            lemma_square_le(middle as nat, 0x8000_0000_0000_0000);
            assert(square(0x8000_0000_0000_0000) == 0x4000_0000_0000_0000_0000_0000_0000_0000);
            assert(middle * middle == square(middle as nat));
        }
        if middle * middle <= x {
            low = middle;
        } else {
            high = middle;
        }
    }
    low
}

/// `2^(2 * k)` as a square.
proof fn lemma_pow2_square(k: nat)
    ensures
        square(pow2(k)) == pow2(2 * k),
{
    lemma_pow2_adds(k, k);
    assert(k + k == 2 * k);
}

/// The magnitude bits nearest to the root of `(sig * 2^exp) * 2^1074` units.
pub fn round_root(sig: u64, exp: u64) -> (m: u64)
    requires
        0 < sig < 0x0020_0000_0000_0000,
        exp <= 2045,
    ensures
        m == rounded_root((sig as nat * pow2(exp as nat)) * pow2(1074)),
{
    let ghost n: nat = (sig as nat * pow2(exp as nat)) * pow2(1074);
    let total: u64 = exp + 1074;
    let odd: bool = total % 2 == 1;
    let s: u64 = if odd {
        2 * sig
    } else {
        sig
    };
    let up: u64 = total / 2;
    let l: u64 = bit_length(s as u128);
    proof {
        lemma2_to64_rest();
        if l > 54 {
            lemma_pow2_le(54, (l - 1) as nat);
        }
    }
    let k: u64 = (124 - l) / 2;
    let p: u128 = power_of_two(2 * k);
    let ghost low: nat = pow2((l - 1) as nat);
    proof {
        lemma_pow2_pos((2 * k) as nat);
        lemma_pow2_adds(l as nat, (2 * k) as nat);
        lemma_pow2_adds((l - 1) as nat, (2 * k) as nat);
        lemma_pow2_le((l + 2 * k) as nat, 124);
        lemma_pow2_le(122, (l - 1 + 2 * k) as nat);
        lemma_pow2_adds(62, 62);
        lemma_pow2_adds(61, 61);
        assert(pow2(124) == 0x1000_0000_0000_0000_0000_0000_0000_0000) by (nonlinear_arith)
            requires
                pow2(124) == pow2(62) * pow2(62),
                pow2(62) == 0x4000_0000_0000_0000,
        ;
        assert(s * p < pow2(l as nat) * p) by (nonlinear_arith)
            requires
                s < pow2(l as nat),
                p > 0,
        ;
        assert(s * p >= low * p) by (nonlinear_arith)
            requires
                s >= low,
        ;
    }
    let x: u128 = s as u128 * p;
    let g: u128 = integer_root(x);
    let tail: u128 = if g * g == x {
        0
    } else {
        1
    };
    proof {
        assert(square(g as nat) == g * g);
        assert(square(pow2(61)) == pow2(122));
        lemma_square_le(pow2(61), (g + 1) as nat);
        assert(g >= pow2(61) - 1) by {
            if g + 1 < pow2(61) {
                lemma_square_le((g + 1) as nat, pow2(61));
            }
        }
        let q = pow2(exp as nat);
        lemma_pow2_adds(exp as nat, 1074);
        assert(n == sig as nat * pow2(total as nat)) by (nonlinear_arith)
            requires
                n == (sig as nat * q) * pow2(1074),
                pow2(total as nat) == q * pow2(1074),
        ;
        lemma_pow2_square(up as nat);
        lemma_pow2_square(k as nat);
        let uu = pow2((2 * up) as nat);
        if odd {
            lemma_pow2_unfold(total as nat);
            assert(n == s as nat * uu) by (nonlinear_arith)
                requires
                    n == sig as nat * (2 * uu),
                    s == 2 * sig,
            ;
        } else {
            assert(total == 2 * up);
        }
        assert(n * p == x * uu) by (nonlinear_arith)
            requires
                n == s as nat * uu,
                x == s as nat * p,
        ;
        lemma_root_sticky(n, x as nat, g as nat, up as nat, k as nat);
    }
    round_scaled(2 * g + tail, up, k + 1)
}

} // verus!
