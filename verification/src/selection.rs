//! Weighted random selection: a roulette wheel over a candidate list. A
//! uniform draw below the total weight lands in exactly one candidate's
//! segment; which candidate that is, is a pure function of the weights and
//! the draw.

use vstd::prelude::*;

verus! {

/// The sum of the first `k` weights.
pub open spec fn prefix_weight(ws: Seq<u64>, k: int) -> int
    decreases k,
{
    if k <= 0 {
        0
    } else {
        prefix_weight(ws, k - 1) + ws[k - 1]
    }
}

/// The sum of all weights.
pub open spec fn total_weight(ws: Seq<u64>) -> int {
    prefix_weight(ws, ws.len() as int)
}

/// The candidate whose segment of the wheel contains `d`: the unique `k` with
/// `prefix_weight(ws, k) <= d < prefix_weight(ws, k + 1)`, for any
/// `0 <= d < total_weight(ws)`.
pub open spec fn pick_index(ws: Seq<u64>, d: int) -> int
    decreases ws.len(),
{
    if ws.len() == 0 {
        0
    } else if d < ws[0] {
        0
    } else {
        1 + pick_index(ws.drop_first(), d - ws[0])
    }
}

pub proof fn lemma_prefix_weight_nonneg(ws: Seq<u64>, k: int)
    requires
        0 <= k <= ws.len(),
    ensures
        prefix_weight(ws, k) >= 0,
    decreases k,
{
    if k > 0 {
        lemma_prefix_weight_nonneg(ws, k - 1);
    }
}

pub proof fn lemma_prefix_weight_mono(ws: Seq<u64>, j: int, k: int)
    requires
        0 <= j <= k <= ws.len(),
    ensures
        prefix_weight(ws, j) <= prefix_weight(ws, k),
    decreases k - j,
{
    if j < k {
        lemma_prefix_weight_mono(ws, j, k - 1);
    }
}

/// Where the draw lands: `pick_index` is exactly the segment containing `d`.
pub proof fn lemma_pick_index_in_segment(ws: Seq<u64>, d: int)
    requires
        0 <= d < total_weight(ws),
    ensures
        0 <= pick_index(ws, d) < ws.len(),
        prefix_weight(ws, pick_index(ws, d)) <= d,
        d < prefix_weight(ws, pick_index(ws, d) + 1),
        ws[pick_index(ws, d)] > 0,
    decreases ws.len(),
{
    lemma_prefix_weight_nonneg(ws, ws.len() as int);
    if ws.len() == 0 {
        assert(total_weight(ws) == 0);
    } else if d < ws[0] {
        assert(prefix_weight(ws, 0) == 0);
        assert(prefix_weight(ws, 1) == ws[0]);
    } else {
        let rest = ws.drop_first();
        lemma_total_weight_drop_first(ws);
        lemma_pick_index_in_segment(rest, d - ws[0]);
        let k = pick_index(rest, d - ws[0]);
        lemma_prefix_weight_drop_first(ws, k + 1);
        lemma_prefix_weight_drop_first(ws, k + 2);
        assert(ws[1 + k] == rest[k]);
    }
}

proof fn lemma_prefix_weight_drop_first(ws: Seq<u64>, k: int)
    requires
        ws.len() >= 1,
        1 <= k <= ws.len(),
    ensures
        prefix_weight(ws, k) == ws[0] + prefix_weight(ws.drop_first(), k - 1),
    decreases k,
{
    if k == 1 {
        assert(prefix_weight(ws, 0) == 0);
        assert(prefix_weight(ws.drop_first(), 0) == 0);
        assert(prefix_weight(ws, 1) == ws[0]);
    } else {
        lemma_prefix_weight_drop_first(ws, k - 1);
        assert(ws.drop_first()[k - 2] == ws[k - 1]);
    }
}

proof fn lemma_total_weight_drop_first(ws: Seq<u64>)
    requires
        ws.len() >= 1,
    ensures
        total_weight(ws) == ws[0] + total_weight(ws.drop_first()),
{
    lemma_prefix_weight_drop_first(ws, ws.len() as int);
}

/// The prefix sums step up by one weight at a time.
pub proof fn lemma_prefix_weight_step(ws: Seq<u64>, k: int)
    requires
        0 <= k < ws.len(),
    ensures
        prefix_weight(ws, k + 1) == prefix_weight(ws, k) + ws[k],
{
}

/// A weight list whose entries are bounded has a bounded total.
pub proof fn lemma_total_weight_bound(ws: Seq<u64>, k: int, m: int)
    requires
        0 <= k <= ws.len(),
        forall|i: int| 0 <= i < ws.len() ==> #[trigger] ws[i] <= m,
    ensures
        prefix_weight(ws, k) <= k * m,
    decreases k,
{
    if k > 0 {
        lemma_total_weight_bound(ws, k - 1, m);
        assert(prefix_weight(ws, k) == prefix_weight(ws, k - 1) + ws[k - 1]);
        assert(ws[k - 1] <= m);
        assert((k - 1) * m + m == k * m) by (nonlinear_arith);
    } else {
        assert(k * m == 0) by (nonlinear_arith)
            requires
                k == 0,
        ;
    }
}

/// Selection is deterministic: the chosen segment is a function of the
/// weights and the draw alone — two selections over equal weight lists with
/// equal draws agree. (The executable selector's contract pins its result to
/// [`pick_index`], so this carries over to every run.)
pub proof fn lemma_selection_deterministic(ws1: Seq<u64>, ws2: Seq<u64>, d1: int, d2: int)
    requires
        ws1 == ws2,
        d1 == d2,
    ensures
        pick_index(ws1, d1) == pick_index(ws2, d2),
{
}

/// The total of a weight list, exactly.
pub fn sum_of_weights(weights: &Vec<u64>) -> (r: u64)
    requires
        total_weight(weights@) <= u64::MAX,
    ensures
        r == total_weight(weights@),
{
    let n = weights.len();
    let mut acc: u64 = 0;
    let mut i: usize = 0;
    while i < n
        invariant
            n == weights@.len(),
            i <= n,
            acc == prefix_weight(weights@, i as int),
            total_weight(weights@) <= u64::MAX,
        decreases n - i,
    {
        proof {
            lemma_prefix_weight_step(weights@, i as int);
            lemma_prefix_weight_mono(weights@, i as int + 1, n as int);
        }
        acc = acc + weights[i];
        i = i + 1;
    }
    acc
}

/// Roulette-wheel selection: returns the index of the candidate whose
/// segment of `[0, total)` contains `draw`. The chosen candidate always has
/// a positive weight.
pub fn select_weighted(weights: &Vec<u64>, draw: u64) -> (r: usize)
    requires
        (draw as int) < total_weight(weights@),
        total_weight(weights@) <= u64::MAX,
    ensures
        r < weights@.len(),
        r == pick_index(weights@, draw as int),
        weights@[r as int] > 0,
{
    proof {
        lemma_pick_index_in_segment(weights@, draw as int);
    }
    let n = weights.len();
    let mut acc: u64 = 0;
    let mut i: usize = 0;
    while i < n
        invariant
            n == weights@.len(),
            i <= n,
            acc == prefix_weight(weights@, i as int),
            draw >= acc,
            (draw as int) < total_weight(weights@),
            total_weight(weights@) <= u64::MAX,
        decreases n - i,
    {
        proof {
            lemma_prefix_weight_step(weights@, i as int);
            lemma_prefix_weight_mono(weights@, i as int + 1, n as int);
            lemma_prefix_weight_nonneg(weights@, i as int);
        }
        let w = weights[i];
        if draw - acc < w {
            proof {
                lemma_pick_unique(weights@, draw as int, i as int);
            }
            return i;
        }
        acc = acc + w;
        i = i + 1;
    }
    proof {
        assert(prefix_weight(weights@, n as int) == total_weight(weights@));
        assert(false);
    }
    0
}

/// Only one segment contains the draw.
proof fn lemma_pick_unique(ws: Seq<u64>, d: int, k: int)
    requires
        0 <= d < total_weight(ws),
        0 <= k < ws.len(),
        prefix_weight(ws, k) <= d,
        d < prefix_weight(ws, k) + ws[k],
    ensures
        pick_index(ws, d) == k,
{
    lemma_pick_index_in_segment(ws, d);
    let p = pick_index(ws, d);
    lemma_prefix_weight_step(ws, k);
    if p < k {
        lemma_prefix_weight_mono(ws, p + 1, k);
    } else if p > k {
        lemma_prefix_weight_mono(ws, k + 1, p);
    }
}

} // verus!
