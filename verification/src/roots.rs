//! How close square roots come to the real ones.

use vstd::prelude::*;
use vstd::arithmetic::power2::*;
use crate::binary64::{negligible, signed, square_root, Binary64};
use crate::reals::{
    abs, eps, lemma_cancel_factor, lemma_negligible, lemma_number, lemma_real_product, lemma_small,
    lemma_times_keeps_order, number,
};
use crate::root::{floor_root, lemma_floor_root_exists, lemma_root_sticky, rounded_root, square};
use crate::rounding::{
    law_rounding_error, lemma_pow2_le, lemma_rounded_at_most, lemma_units_increase, rounded, units,
    INFINITY_BITS,
};

verus! {

/// `sqrt` gives the root: its square is the number, but for eight parts in `2^53`. A
/// zero and the infinity above are their own roots; there is none below zero.
pub proof fn law_sqrt(a: Binary64, r: Binary64)
    requires
        call_ensures(Binary64::sqrt, (a,), r),
    ensures
        is_root(r, a),
{
    lemma_square_root_is_accurate(a);
}

/// Whether `r` is the root of `a`.
pub open spec fn is_root(r: Binary64, a: Binary64) -> bool {
    if a.is_nan() || (a.is_negative() && !a.is_zero()) {
        r.is_nan()
    } else if a.is_zero() || a.is_infinite() {
        r == a
    } else {
        &&& r.is_finite() && !r.is_negative()
        &&& abs(number(r) * number(r) - number(a)) <= (8 as real) * (eps() * number(a))
    }
}

/// The same, of the specification.
pub proof fn lemma_square_root_is_accurate(a: Binary64)
    ensures
        is_root(square_root(a), a),
{
    reveal(square_root);
    if a.is_finite() && !a.is_negative() && !a.is_zero() {
        lemma_root_bounds(a);
    }
}

/// The root of a finite number above zero.
proof fn lemma_root_bounds(a: Binary64)
    requires
        a.is_finite(),
        !a.is_negative(),
        !a.is_zero(),
    ensures
        ({
            let m = rounded_root(units(a.magnitude()) * pow2(1074));
            let r = signed(false, m);
            &&& m < INFINITY_BITS
            &&& abs(number(r) * number(r) - number(a)) <= (8 as real) * (eps() * number(a))
        }),
{
    let k = pow2(1074);
    let u = units(a.magnitude());
    let n = u * k;
    let c = pow2(60);
    let x = n * square(c);
    lemma_small();
    lemma2_to64_rest();
    lemma_pow2_pos(1074);
    lemma_units_increase(0, a.magnitude());
    lemma_floor_root_exists(x);
    let g = floor_root(x);
    assert(g * 1 == g && (g + 1) * 1 == g + 1);
    lemma2_to64();
    assert(square(pow2(0)) == 1) by (nonlinear_arith)
        requires
            pow2(0) == 1,
    ;
    assert(x * 1 == x);
    lemma_pow2_le(60, 1074);
    // The root has bits to spare.
    assert(g >= 0x0040_0000_0000_0000) by {
        if g < 0x0040_0000_0000_0000 {
            assert(n >= 1) by (nonlinear_arith)
                requires
                    n == u * k,
                    u >= 1,
                    k >= 1,
            ;
            assert(n * (c * c) >= c * c) by (nonlinear_arith)
                requires
                    n >= 1,
            ;
            assert((g + 1) * (g + 1) <= c * c) by (nonlinear_arith)
                requires
                    g + 1 <= c,
            ;
        }
    }
    lemma_root_sticky(n, x, g, 0, 60);
    let s: nat = if x == square(g) {
        0
    } else {
        1
    };
    let b = 2 * g + s;
    let d = pow2(61);
    assert(b * 1 == b);
    lemma_pow2_unfold(61);
    let m = rounded(b, d);
    // It is no more than the number itself, or than one.
    assert(m < INFINITY_BITS && b >= 0x0020_0000_0000_0000 * d) by {
        lemma_pow2_adds(1600, 61);
        lemma_infinite_bound(a);
        lemma_pow2_adds(1586, 1586);
        let q = pow2(1586);
        lemma_pow2_pos(1586);
        lemma_pow2_le(2098 + 1074, 1586 + 1586);
        let z = pow2(2098);
        assert(u * k < z * k) by (nonlinear_arith)
            requires
                u < z,
                k > 0,
        ;
        let cc = c * c;
        assert(cc > 0) by (nonlinear_arith)
            requires
                cc == c * c,
                c > 0,
        ;
        let qq = q * q;
        assert(n < qq);
        assert(n * cc < qq * cc) by (nonlinear_arith)
            requires
                n < qq,
                cc > 0,
        ;
        let qc = q * c;
        assert(qc * qc == qq * cc) by (nonlinear_arith)
            requires
                qc == q * c,
                qq == q * q,
                cc == c * c,
        ;
        assert(g < qc) by {
            if g >= qc {
                assert(g * g >= qc * qc) by (nonlinear_arith)
                    requires
                        g >= qc,
                ;
            }
        }
        lemma_pow2_adds(1586, 60);
        lemma_pow2_adds(1587, 61);
        lemma_pow2_unfold(1587);
        assert((2 * q) * (2 * c) == 4 * qc) by (nonlinear_arith)
            requires
                qc == q * c,
        ;
        lemma_rounded_at_most(b, d, 1587);
        // And no less than 2^537.
        let h = pow2(537);
        lemma_pow2_adds(537, 537);
        let hc = h * c;
        let hh = h * h;
        assert(hc * hc == hh * cc) by (nonlinear_arith)
            requires
                hc == h * c,
                hh == h * h,
                cc == c * c,
        ;
        assert(k <= n) by (nonlinear_arith)
            requires
                n == u * k,
                u >= 1,
        ;
        assert(k * cc <= n * cc) by (nonlinear_arith)
            requires
                k <= n,
        ;
        assert(g >= hc) by {
            if g < hc {
                assert((g + 1) * (g + 1) <= hc * hc) by (nonlinear_arith)
                    requires
                        g + 1 <= hc,
                ;
            }
        }
        lemma_pow2_le(53, 537);
        assert(0x0020_0000_0000_0000 * c <= hc) by (nonlinear_arith)
            requires
                hc == h * c,
                0x0020_0000_0000_0000 <= h,
        ;
    }
    law_rounding_error(b, d);
    let w = units(m);
    let off = b - w * d;
    assert(negligible(off, b as int)) by {
        if !(-(b as int) <= off * 0x0020_0000_0000_0000 <= b) {
            assert(-(d as int) <= 2 * off <= d);
        }
    }
    lemma_root_error(u, k, c, g, s, w);
    let r = signed(false, m);
    lemma_number(r);
    let (rr, ar, kr) = (w as real, u as real, k as real);
    lemma_real_product(u as int, k as int);
    lemma_real_root_error(rr, ar, kr);
}

/// The magnitude of a finite number is below `2^2098` units.
proof fn lemma_infinite_bound(a: Binary64)
    requires
        a.is_finite(),
    ensures
        units(a.magnitude()) < pow2(2098),
        pow2(2098) * pow2(1074) == pow2(3172),
{
    lemma_units_increase(a.magnitude(), INFINITY_BITS as nat);
    lemma2_to64_rest();
    lemma_pow2_adds(52, 2046);
    lemma_pow2_adds(2098, 1074);
}

/// The square of a root that is rounded from a floor root with bits to spare.
proof fn lemma_root_error(u: nat, k: nat, c: nat, g: nat, s: nat, w: nat)
    requires
        c > 0,
        u > 0,
        k > 0,
        g >= 0x0040_0000_0000_0000,
        s <= 1,
        g * g <= (u * k) * (c * c) < (g + 1) * (g + 1),
        s == 0 <==> (u * k) * (c * c) == g * g,
        negligible(2 * g + s - w * (2 * c), (2 * g + s) as int),
    ensures
        ({
            let (wr, nr) = (w as real, (u * k) as real);
            abs(wr * wr - nr) <= (8 as real) * (eps() * nr)
        }),
{
    lemma_small();
    let n = u * k;
    let x = n * (c * c);
    let b = 2 * g + s;
    let (br, xr, cr, wr, nr, gr) = (b as real, x as real, c as real, w as real, n as real, g as real);
    let e = eps();
    lemma_real_product(c as int, c as int);
    lemma_real_product(n as int, (c * c) as int);
    lemma_real_product(g as int, g as int);
    lemma_real_product(b as int, b as int);
    lemma_real_product(w as int, (2 * c) as int);
    lemma_real_product((g + 1) as int, (g + 1) as int);
    assert(xr == nr * (cr * cr));
    // The square of b against four times x.
    let q = br * br;
    assert((g + 1) * (g + 1) == g * g + 2 * g + 1) by (nonlinear_arith);
    if s == 0 {
        assert(b * b == 4 * (g * g)) by (nonlinear_arith)
            requires
                b == 2 * g,
        ;
    } else {
        assert(b * b == 4 * (g * g) + 4 * g + 1) by (nonlinear_arith)
            requires
                b == 2 * g + 1,
        ;
    }
    assert(abs(q - (4 as real) * xr) <= (5 as real) * gr);
    let big = 9007199254740992 as real;
    assert(e * big == (1 as real)) by (nonlinear_arith)
        requires
            e == (1 as real) / (9007199254740992 as real),
            big == (9007199254740992 as real),
    ;
    lemma_times_keeps_order((2 as real) * big, gr, gr);
    lemma_times_keeps_order(((2 as real) * big) * gr, xr, e);
    assert(e * (((2 as real) * big) * gr) == (e * big) * ((2 as real) * gr)) by (nonlinear_arith);
    let ex = e * xr;
    assert((2 as real) * gr <= ex);
    let f = e * ((4 as real) * xr);
    assert(f == (4 as real) * ex) by (nonlinear_arith)
        requires
            f == e * ((4 as real) * xr),
            ex == e * xr,
    ;
    // The rounded root against b.
    let v = wr * ((2 as real) * cr);
    lemma_negligible(b - w * (2 * c), b as int, (1 as real));
    assert(br / (1 as real) == br && (br - v) / (1 as real) == br - v) by (nonlinear_arith);
    assert(abs(br - v) <= e * br);
    let o = br - v;
    let eb = e * br;
    assert(v * v - q == o * o - (2 as real) * (o * br)) by (nonlinear_arith)
        requires
            q == br * br,
            o == br - v,
    ;
    let eq = e * q;
    assert(eb * br == eq) by (nonlinear_arith)
        requires
            eb == e * br,
            q == br * br,
            eq == e * q,
    ;
    lemma_times_keeps_order((0 as real), br, e);
    assert(eb >= (0 as real));
    lemma_times_keeps_order(o, eb, br);
    lemma_times_keeps_order(-o, eb, br);
    assert((-o) * br == -(o * br)) by (nonlinear_arith);
    assert(o * o <= eb * eb && o * o >= (0 as real)) by (nonlinear_arith)
        requires
            o <= eb,
            -o <= eb,
    ;
    lemma_times_keeps_order(e, (1 as real), br);
    lemma_times_keeps_order(eb, br, eb);
    assert(abs(v * v - q) <= (3 as real) * eq);
    // And both together.
    lemma_times_keeps_order(q, (4 as real) * xr + f, e);
    assert(e * ((4 as real) * xr + f) == f + e * f) by (nonlinear_arith)
        requires
            f == e * ((4 as real) * xr),
    ;
    lemma_times_keeps_order(e, (1 as real), f);
    assert(eq <= (2 as real) * f);
    assert(abs(v * v - (4 as real) * xr) <= (7 as real) * f);
    let cc = cr * cr;
    let z = (4 as real) * cc;
    let y = wr * wr - nr;
    assert(cc > (0 as real)) by (nonlinear_arith)
        requires
            cc == cr * cr,
            cr > (0 as real),
    ;
    let en = e * nr;
    let ww = wr * wr;
    assert(v * v == z * ww) by (nonlinear_arith)
        requires
            v == wr * ((2 as real) * cr),
            cc == cr * cr,
            z == (4 as real) * cc,
            ww == wr * wr,
    ;
    assert((4 as real) * xr == z * nr) by (nonlinear_arith)
        requires
            xr == nr * cc,
            z == (4 as real) * cc,
    ;
    assert(z * ww - z * nr == z * (ww - nr)) by (nonlinear_arith);
    assert(e * (z * nr) == z * en) by (nonlinear_arith)
        requires
            en == e * nr,
    ;
    assert(z * ((7 as real) * en) == (7 as real) * (z * en)) by (nonlinear_arith);
    assert(z * (-y) == -(z * y)) by (nonlinear_arith);
    lemma_cancel_factor(y, (7 as real) * en, z);
    lemma_cancel_factor(-y, (7 as real) * en, z);
    lemma_times_keeps_order((0 as real), nr, e);
}

/// From units to numbers.
proof fn lemma_real_root_error(w: real, u: real, k: real)
    requires
        k > (0 as real),
        abs(w * w - u * k) <= (8 as real) * (eps() * (u * k)),
    ensures
        abs((w / k) * (w / k) - u / k) <= (8 as real) * (eps() * (u / k)),
{
    let kk = k * k;
    let (y, en) = (w * w - u * k, eps() * (u * k));
    assert(kk > (0 as real)) by (nonlinear_arith)
        requires
            kk == k * k,
            k > (0 as real),
    ;
    let (a, b) = (w / k, u / k);
    assert(a * k == w && b * k == u) by (nonlinear_arith)
        requires
            a == w / k,
            b == u / k,
            k > (0 as real),
    ;
    let aa = a * a;
    assert(kk * aa == w * w) by (nonlinear_arith)
        requires
            aa == a * a,
            kk == k * k,
            a * k == w,
    ;
    assert(kk * b == u * k) by (nonlinear_arith)
        requires
            kk == k * k,
            b * k == u,
    ;
    let e = eps();
    assert(kk * (e * b) == e * (kk * b)) by (nonlinear_arith);
    let eb = e * b;
    assert(kk * ((8 as real) * eb) == (8 as real) * (kk * eb)) by (nonlinear_arith);
    assert(kk * (aa - b) == kk * aa - kk * b && kk * (b - aa) == kk * b - kk * aa) by (nonlinear_arith);
    lemma_cancel_factor(aa - b, (8 as real) * eb, kk);
    lemma_cancel_factor(b - aa, (8 as real) * eb, kk);
}

} // verus!
