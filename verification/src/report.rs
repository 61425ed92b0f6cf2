//! What the demo runs and what its tables show.

use vstd::prelude::*;
use crate::binary64::{product, quotient, ratio, signed, sum, whole, Binary64, SIGN_BIT};
use crate::strategy::{Decision, EdgeParams};

verus! {

/// How many decisions the trace of a run shows.
pub const TRACE_ROWS: usize = 15;

/// One of the strategies that the demo compares, by its label, the mean and the
/// standard deviation of its belief. All act on an edge of more than 0.05 nats.
pub open spec fn contender(p: EdgeParams, label: Seq<char>, mu: Binary64, sigma: nat) -> bool {
    &&& p.label@ == label
    &&& p.belief_mu == mu
    &&& p.belief_sigma == ratio(sigma, 1)
    &&& p.edge_threshold == ratio(1, 20)
}

/// The strategies that the demo compares: one that is close to the truth, one
/// that knows it, and one that is confident and wrong.
pub fn contenders(truth_mu: Binary64) -> (r: Vec<EdgeParams>)
    ensures
        r@.len() == 3,
        contender(r@[0], "Informed"@, ratio(49, 1), 4),
        contender(r@[1], "Oracle (= truth)"@, truth_mu, 4),
        contender(r@[2], "Wrong-Confident"@, ratio(35, 1), 3),
{
    let edge_threshold: Binary64 = Binary64::from_ratio(1, 20);
    let mut r: Vec<EdgeParams> = Vec::new();
    r.push(
        EdgeParams {
            label: "Informed",
            belief_mu: Binary64::from_ratio(49, 1),
            belief_sigma: Binary64::from_ratio(4, 1),
            edge_threshold,
        },
    );
    r.push(
        EdgeParams {
            label: "Oracle (= truth)",
            belief_mu: truth_mu,
            belief_sigma: Binary64::from_ratio(4, 1),
            edge_threshold,
        },
    );
    r.push(
        EdgeParams {
            label: "Wrong-Confident",
            belief_mu: Binary64::from_ratio(35, 1),
            belief_sigma: Binary64::from_ratio(3, 1),
            edge_threshold,
        },
    );
    r
}

/// Whether `r` is where the first strategy with the given label stands, if there is
/// any.
pub open spec fn stands_first(params: Seq<EdgeParams>, label: Seq<char>, r: Option<usize>) -> bool {
    match r {
        Some(k) => {
            &&& k < params.len()
            &&& params[k as int].label@ == label
            &&& forall|i: int| 0 <= i < k ==> (#[trigger] params[i]).label@ != label
        },
        None => forall|i: int| 0 <= i < params.len() ==> (#[trigger] params[i]).label@ != label,
    }
}

/// Finds the first strategy with the given label.
pub fn find_label(params: &Vec<EdgeParams>, label: &str) -> (r: Option<usize>)
    ensures
        stands_first(params@, label@, r),
{
    let wanted: String = label.to_owned();
    let mut k: usize = 0;
    while k < params.len()
        invariant
            k <= params@.len(),
            wanted@ == label@,
            forall|i: int| 0 <= i < k ==> (#[trigger] params@[i]).label@ != label@,
        decreases params@.len() - k,
    {
        let found: String = params[k].label.to_owned();
        if found == wanted {
            return Some(k);
        }
        k = k + 1;
    }
    None
}

/// The divergences of the decisions, added up in order, from a zero that leaves
/// every number as it is.
pub open spec fn total_kl(decisions: Seq<Decision>) -> Binary64
    decreases decisions.len(),
{
    if decisions.len() == 0 {
        signed(true, 0)
    } else {
        sum(total_kl(decisions.drop_last()), decisions.last().kl)
    }
}

/// The mean divergence over all decisions; without any, the sum of none.
pub fn mean_kl(decisions: &Vec<Decision>) -> (r: Binary64)
    ensures
        r == quotient(
            total_kl(decisions@),
            whole(
                if decisions@.len() == 0 {
                    1
                } else {
                    decisions@.len()
                },
            ),
        ),
{
    let mut total: Binary64 = Binary64 { bits: SIGN_BIT };
    assert(decisions@.take(0).len() == 0);
    let mut i: usize = 0;
    while i < decisions.len()
        invariant
            i <= decisions@.len(),
            total == total_kl(decisions@.take(i as int)),
        decreases decisions@.len() - i,
    {
        total = total.plus(decisions[i].kl);
        i = i + 1;
        assert(decisions@.take(i as int).drop_last() == decisions@.take(i - 1));
    }
    assert(decisions@.take(i as int) == decisions@);
    let n: usize = if decisions.len() == 0 {
        1
    } else {
        decisions.len()
    };
    total.over(Binary64::from_u64(n as u64))
}

/// A position value as the table shows it: in thousandths.
pub fn payout_in_thousandths(payout: Binary64) -> (r: Binary64)
    ensures
        r == product(payout, whole(1000)),
{
    payout.times(Binary64::from_u64(1000))
}

/// How many of `n` decisions the trace shows, and how many it leaves out.
pub fn trace_window(n: usize) -> (r: (usize, usize))
    ensures
        r.0 + r.1 == n,
        r.0 == if n <= TRACE_ROWS {
            n
        } else {
            TRACE_ROWS
        },
{
    if n > TRACE_ROWS {
        (TRACE_ROWS, n - TRACE_ROWS)
    } else {
        (n, 0)
    }
}

} // verus!
