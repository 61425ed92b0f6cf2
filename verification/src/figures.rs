//! What the figures of a report stand for.

use vstd::prelude::*;
use vstd::arithmetic::power2::*;
use crate::binary64::{quotient, signed, sum, whole, Binary64};
use crate::operations::lemma_ratio_is_accurate;
use crate::reals::{
    abs, eps, law_product_is_accurate, law_quotient_is_accurate, law_sum_is_accurate,
    lemma_finite_product, lemma_finite_quotient, lemma_finite_sum, lemma_number,
    lemma_product_up_to, lemma_quotient_up_to, lemma_small, lemma_sum_up_to,
    lemma_times_keeps_order, lemma_up_to_more, number, tiny, up_to,
};
use crate::report::{
    contender, contenders, mean_kl, payout_in_thousandths, stands_first, total_kl, trace_window,
};
use crate::strategy::{Decision, EdgeParams};
use crate::timelines::{lemma_number_of_ratio, lemma_number_of_whole};

verus! {

/// The divergences of the decisions added up, in real numbers.
pub open spec fn real_total(decisions: Seq<Decision>) -> real
    decreases decisions.len(),
{
    if decisions.len() == 0 {
        0 as real
    } else {
        real_total(decisions.drop_last()) + number(decisions.last().kl)
    }
}

/// Their distances from zero added up.
pub open spec fn real_size(decisions: Seq<Decision>) -> real
    decreases decisions.len(),
{
    if decisions.len() == 0 {
        0 as real
    } else {
        real_size(decisions.drop_last()) + abs(number(decisions.last().kl))
    }
}

/// One more number added to a total that is close to what it should be.
proof fn lemma_one_more(t: real, s: real, a: real, x: real, r: real, n: real, e: real)
    requires
        e > (0 as real),
        n >= (0 as real),
        (2 as real) * (n * e) <= (1 as real),
        a >= (0 as real),
        abs(s) <= a,
        abs(t - s) <= (2 as real) * ((n * e) * a),
        abs(r - (t + x)) <= e * abs(t + x),
    ensures
        abs(r - (s + x)) <= (2 as real) * (((n + (1 as real)) * e) * (a + abs(x))),
{
    let b = a + abs(x);
    let ne = n * e;
    let eb = e * b;
    lemma_times_keeps_order((0 as real), b, e);
    lemma_times_keeps_order((0 as real), n, e);
    lemma_times_keeps_order(a, b, ne);
    lemma_times_keeps_order((2 as real) * ne, (1 as real), a);
    assert(((2 as real) * ne) * a == (2 as real) * (ne * a)) by (nonlinear_arith);
    assert(abs(t + x) <= (2 as real) * b);
    lemma_times_keeps_order(abs(t + x), (2 as real) * b, e);
    assert(e * ((2 as real) * b) == (2 as real) * eb) by (nonlinear_arith)
        requires
            eb == e * b,
    ;
    assert(((n + (1 as real)) * e) * b == ne * b + eb) by (nonlinear_arith)
        requires
            ne == n * e,
            eb == e * b,
    ;
}

/// The total is the sum of the divergences, but for rounding.
proof fn lemma_total_is_accurate(decisions: Seq<Decision>)
    requires
        total_kl(decisions).is_finite(),
        decisions.len() <= 0x0010_0000_0000_0000,
    ensures
        real_size(decisions) >= (0 as real),
        abs(real_total(decisions)) <= real_size(decisions),
        abs(number(total_kl(decisions)) - real_total(decisions)) <= (2 as real) * ((decisions.len() as real * eps())
            * real_size(decisions)),
        forall|i: int| 0 <= i < decisions.len() ==> (#[trigger] decisions[i]).kl.is_finite(),
    decreases decisions.len(),
{
    lemma_small();
    if decisions.len() == 0 {
        lemma_number(signed(true, 0));
    } else {
        let before = decisions.drop_last();
        let kl = decisions.last().kl;
        lemma_finite_sum(total_kl(before), kl);
        lemma_total_is_accurate(before);
        law_sum_is_accurate(total_kl(before), kl);
        let n = before.len() as real;
        let big = 9007199254740992 as real;
        let e = eps();
        assert((2 as real) * (n * e) <= (1 as real)) by (nonlinear_arith)
            requires
                e == (1 as real) / (9007199254740992 as real),
                n <= (4503599627370496 as real),
                n >= (0 as real),
        ;
        lemma_one_more(
            number(total_kl(before)),
            real_total(before),
            real_size(before),
            number(kl),
            number(total_kl(decisions)),
            n,
            e,
        );
        assert(forall|i: int| 0 <= i < before.len() ==> before[i] == #[trigger] decisions[i]);
    }
}

/// `mean_kl` gives the mean of the divergences of all decisions, each counted once, but
/// for rounding. Without decisions it is zero.
pub proof fn law_mean_kl_is_the_mean(decisions: Vec<Decision>, r: Binary64)
    requires
        call_ensures(mean_kl, (&decisions,), r),
        decisions@.len() <= 0x0010_0000_0000_0000,
    ensures
        decisions@.len() == 0 ==> r.is_zero(),
        decisions@.len() > 0 && r.is_finite() ==> abs(
            number(r) - real_total(decisions@) / decisions@.len() as real,
        ) <= (4 as real) * (eps() * real_size(decisions@)) + tiny(),
{
    lemma_small();
    let s = decisions@;
    if s.len() == 0 {
        reveal(quotient);
        lemma_number_of_whole(1);
        crate::binary64::law_whole_exact(1);
        lemma_pow2_pos(1074);
        assert(0 * pow2(1074) == 0) by (nonlinear_arith);
        crate::rounding::lemma_rounded_zero(pow2(1074));
    } else if r.is_finite() {
        let n = whole(s.len());
        lemma_number_of_whole(s.len());
        crate::binary64::law_whole_exact(s.len());
        lemma_pow2_pos(1074);
        assert(s.len() * pow2(1074) > 0) by (nonlinear_arith)
            requires
                s.len() > 0,
                pow2(1074) > 0,
        ;
        assert(!n.is_zero());
        lemma_finite_quotient(total_kl(s), n);
        lemma_total_is_accurate(s);
        law_quotient_is_accurate(total_kl(s), n);
        lemma_mean(
            number(total_kl(s)),
            real_total(s),
            real_size(s),
            s.len() as real,
            number(r),
            eps(),
            tiny(),
        );
    }
}

/// A total that is close to what it should be, divided.
proof fn lemma_mean(t: real, s: real, a: real, n: real, r: real, e: real, h: real)
    requires
        e > (0 as real),
        e * (1024 as real) < (1 as real),
        n >= (1 as real),
        a >= (0 as real),
        abs(s) <= a,
        abs(t - s) <= (2 as real) * ((n * e) * a),
        abs(r - t / n) <= e * abs(t / n) + h,
    ensures
        abs(r - s / n) <= (4 as real) * (e * a) + h,
{
    let (ea, q, p) = (e * a, t / n, s / n);
    assert(n * q == t && n * p == s) by (nonlinear_arith)
        requires
            q == t / n,
            p == s / n,
            n >= (1 as real),
    ;
    lemma_times_keeps_order((0 as real), a, e);
    lemma_times_keeps_order(e * (1024 as real), (1 as real), a);
    assert((e * (1024 as real)) * a == (1024 as real) * ea && (n * e) * a == n * ea) by (nonlinear_arith)
        requires
            ea == e * a,
    ;
    // The quotient of the rounded total against that of the exact one.
    let d = q - p;
    assert(n * d == t - s && n * (-d) == s - t) by (nonlinear_arith)
        requires
            d == q - p,
            n * q == t,
            n * p == s,
    ;
    assert(n * ((2 as real) * ea) == (2 as real) * (n * ea)) by (nonlinear_arith);
    crate::reals::lemma_cancel_factor(d, (2 as real) * ea, n);
    crate::reals::lemma_cancel_factor(-d, (2 as real) * ea, n);
    // And its size.
    lemma_times_keeps_order((1 as real), n, a);
    assert(n * (-p) == -s) by (nonlinear_arith)
        requires
            n * p == s,
    ;
    crate::reals::lemma_cancel_factor(p, a, n);
    crate::reals::lemma_cancel_factor(-p, a, n);
    assert(abs(q) <= (2 as real) * a);
    lemma_times_keeps_order(abs(q), (2 as real) * a, e);
    assert(e * ((2 as real) * a) == (2 as real) * ea) by (nonlinear_arith)
        requires
            ea == e * a,
    ;
}

/// Divergences are added up in order: the mean of a longer run is the total of the
/// shorter one, plus the divergence that came last, over the number of all. The total of
/// none is zero and leaves the first divergence as it is.
pub proof fn law_mean_kl_takes_one_more(
    before: Vec<Decision>,
    after: Vec<Decision>,
    d: Decision,
    r: Binary64,
    total: Binary64,
    next: Binary64,
    n: Binary64,
)
    requires
        call_ensures(mean_kl, (&after,), r),
        after@ == before@.push(d),
        total == total_kl(before@),
        call_ensures(Binary64::plus, (total, d.kl), next),
        after@.len() <= u64::MAX,
        call_ensures(Binary64::from_u64, (after@.len() as u64,), n),
    ensures
        before@.len() == 0 ==> total.is_zero() && (!d.kl.is_nan() ==> number(next) == number(d.kl)),
        r == quotient(next, n),
{
    assert(after@.drop_last() == before@);
    if before@.len() == 0 && !d.kl.is_nan() {
        reveal(sum);
        if d.kl.is_finite() {
            crate::rounding::lemma_rounded_exact(d.kl.magnitude());
        }
    }
}

/// The mean of divergences of ordinary size is finite.
pub proof fn law_mean_kl_is_finite(decisions: Vec<Decision>, r: Binary64)
    requires
        call_ensures(mean_kl, (&decisions,), r),
        decisions@.len() <= 900,
        forall|i: int| 0 <= i < decisions@.len() ==> up_to((#[trigger] decisions@[i]).kl, 100),
    ensures
        r.is_finite(),
{
    let s = decisions@;
    lemma_total_up_to(s);
    let n: nat = if s.len() == 0 {
        1
    } else {
        s.len()
    };
    let e = 100 + s.len() as int;
    lemma_number_of_whole(n);
    crate::binary64::law_whole_exact(n);
    lemma_pow2_pos(1074);
    assert(n * pow2(1074) >= pow2(1074)) by (nonlinear_arith)
        requires
            n >= 1,
    ;
    lemma_quotient_up_to(total_kl(s), whole(n), e, 0);
}

/// A total of bounded numbers is bounded.
proof fn lemma_total_up_to(decisions: Seq<Decision>)
    requires
        decisions.len() <= 900,
        forall|i: int| 0 <= i < decisions.len() ==> up_to((#[trigger] decisions[i]).kl, 100),
    ensures
        up_to(total_kl(decisions), 100 + decisions.len() as int),
    decreases decisions.len(),
{
    if decisions.len() == 0 {
        lemma_pow2_pos(1174);
    } else {
        let before = decisions.drop_last();
        assert forall|i: int| 0 <= i < before.len() implies up_to((#[trigger] before[i]).kl, 100) by {
            assert(before[i] == decisions[i]);
        }
        lemma_total_up_to(before);
        let e = 100 + before.len() as int;
        assert(up_to(decisions[decisions.len() - 1].kl, 100));
        lemma_up_to_more(decisions.last().kl, 100, e);
        lemma_sum_up_to(total_kl(before), decisions.last().kl, e);
    }
}

/// `payout_in_thousandths` multiplies by a thousand, but for rounding.
pub proof fn law_payout_in_thousandths(payout: Binary64, r: Binary64)
    requires
        call_ensures(payout_in_thousandths, (payout,), r),
    ensures
        r.is_finite() ==> abs(number(r) - (1000 as real) * number(payout)) <= eps() * abs(
            (1000 as real) * number(payout),
        ) + tiny(),
        up_to(payout, 1000) ==> r.is_finite(),
{
    lemma_number_of_whole(1000);
    crate::binary64::law_whole_exact(1000);
    let t = whole(1000);
    if r.is_finite() {
        lemma_finite_product(payout, t);
        law_product_is_accurate(payout, t);
        assert(number(payout) * (1000 as real) == (1000 as real) * number(payout)) by (nonlinear_arith);
    }
    if up_to(payout, 1000) {
        lemma2_to64();
        lemma_pow2_adds(10, 1074);
        assert(up_to(t, 10));
        lemma_product_up_to(payout, t, 1000, 10);
    }
}

/// The trace shows all decisions up to fifteen, and leaves out the others.
pub proof fn law_trace_shows_fifteen(n: usize, r: (usize, usize))
    requires
        call_ensures(trace_window, (n,), r),
    ensures
        r.0 <= 15,
        r.0 + r.1 == n,
        r.1 > 0 ==> r.0 == 15,
{
}

/// The contenders believe in 49, in the truth and in 35, with standard deviations of 4, 4
/// and 3, and act on an edge of more than one twentieth.
pub proof fn law_contenders(truth_mu: Binary64, r: Vec<EdgeParams>)
    requires
        call_ensures(contenders, (truth_mu,), r),
    ensures
        r@.len() == 3,
        r@[0].label@ == "Informed"@ && number(r@[0].belief_mu) == (49 as real) && number(r@[0].belief_sigma) == (
        4 as real),
        r@[1].label@ == "Oracle (= truth)"@ && r@[1].belief_mu == truth_mu && number(r@[1].belief_sigma) == (
        4 as real),
        r@[2].label@ == "Wrong-Confident"@ && number(r@[2].belief_mu) == (35 as real) && number(r@[2].belief_sigma)
            == (3 as real),
        forall|i: int|
            0 <= i < 3 ==> abs(number((#[trigger] r@[i]).edge_threshold) - (1 as real) / (20 as real)) <= eps()
                + tiny(),
{
    lemma_number_of_ratio(49);
    lemma_number_of_ratio(4);
    lemma_number_of_ratio(35);
    lemma_number_of_ratio(3);
    lemma_ratio_is_accurate(1, 20);
    lemma_small();
    lemma_times_keeps_order((1 as real) / (20 as real), (1 as real), eps());
    assert(contender(r@[0], "Informed"@, crate::binary64::ratio(49, 1), 4));
    assert(contender(r@[1], "Oracle (= truth)"@, truth_mu, 4));
    assert(contender(r@[2], "Wrong-Confident"@, crate::binary64::ratio(35, 1), 3));
}

/// What `find_label` finds of a label: where it is there, the place at which it stands
/// first, and nothing where it is not.
pub proof fn law_find_label(params: Seq<EdgeParams>, label: Seq<char>, r: Option<usize>)
    requires
        stands_first(params, label, r),
    ensures
        r is Some <==> exists|k: int| 0 <= k < params.len() && (#[trigger] params[k]).label@ == label,
        r matches Some(i) ==> i < params.len() && params[i as int].label@ == label,
        forall|k: int|
            0 <= k < params.len() && (#[trigger] params[k]).label@ == label ==> (r matches Some(i) && i <= k),
{
}

} // verus!
