//! Fixed-point arithmetic and the stochastic selection score.
//!
//! Every fractional quantity of the search — visibility, pheromone weight,
//! selection score, base chance — is an integer number of `1/SCALE` units.
//! The score of a candidate task follows the rule
//! `(visibility/visibility_sum)^alfa * (weight/pheromone_sum)^beta`, each
//! ratio capped at one, evaluated in fixed point with flooring division.

use vstd::prelude::*;

verus! {

/// One, in fixed-point units.
pub const SCALE: u64 = 1_000_000;

/// `a / b` in fixed point, capped at one; zero when `b` is zero (a degenerate
/// denominator is absorbed, never an error).
pub open spec fn fp_ratio_spec(a: u64, b: u64) -> u64 {
    if b == 0 {
        0u64
    } else if a >= b {
        SCALE
    } else {
        (a * SCALE / (b as int)) as u64
    }
}

/// `x^e` in fixed point (`x` at most one), by repeated multiplication with
/// flooring division.
pub open spec fn fp_pow_spec(x: u64, e: nat) -> u64
    decreases e,
{
    if e == 0 {
        SCALE
    } else {
        ((fp_pow_spec(x, (e - 1) as nat) * x) / (SCALE as int)) as u64
    }
}

/// The selection score of one candidate:
/// `(vis/vis_sum)^alfa * (w/pher_sum)^beta` in fixed point, zero whenever the
/// pheromone sum is zero.
pub open spec fn score_spec(vis: u64, w: u64, alfa: u32, beta: u32, vis_sum: u64, pher_sum: u64) -> u64 {
    if pher_sum == 0 {
        0u64
    } else {
        ((fp_pow_spec(fp_ratio_spec(vis, vis_sum), alfa as nat) * fp_pow_spec(
            fp_ratio_spec(w, pher_sum),
            beta as nat,
        )) / (SCALE as int)) as u64
    }
}

pub proof fn lemma_fp_ratio_le_one(a: u64, b: u64)
    ensures
        fp_ratio_spec(a, b) <= SCALE,
{
    if b != 0 && a < b {
        assert(a * SCALE / (b as int) < SCALE) by (nonlinear_arith)
            requires 0 < b && a < b && SCALE > 0;
    }
}

pub proof fn lemma_fp_pow_le_one(x: u64, e: nat)
    requires
        x <= SCALE,
    ensures
        fp_pow_spec(x, e) <= SCALE,
    decreases e,
{
    if e > 0 {
        lemma_fp_pow_le_one(x, (e - 1) as nat);
        let p = fp_pow_spec(x, (e - 1) as nat);
        assert(p * x / (SCALE as int) <= SCALE) by (nonlinear_arith)
            requires p <= SCALE && x <= SCALE && SCALE > 0;
    }
}

pub proof fn lemma_score_le_one(vis: u64, w: u64, alfa: u32, beta: u32, vis_sum: u64, pher_sum: u64)
    ensures
        score_spec(vis, w, alfa, beta, vis_sum, pher_sum) <= SCALE,
{
    if pher_sum != 0 {
        lemma_fp_ratio_le_one(vis, vis_sum);
        lemma_fp_ratio_le_one(w, pher_sum);
        lemma_fp_pow_le_one(fp_ratio_spec(vis, vis_sum), alfa as nat);
        lemma_fp_pow_le_one(fp_ratio_spec(w, pher_sum), beta as nat);
        let p = fp_pow_spec(fp_ratio_spec(vis, vis_sum), alfa as nat);
        let q = fp_pow_spec(fp_ratio_spec(w, pher_sum), beta as nat);
        assert(p * q / (SCALE as int) <= SCALE) by (nonlinear_arith)
            requires p <= SCALE && q <= SCALE && SCALE > 0;
    }
}

/// `a / b` in fixed point, capped at one; zero when `b` is zero.
pub fn fp_ratio(a: u64, b: u64) -> (r: u64)
    ensures
        r == fp_ratio_spec(a, b),
        r <= SCALE,
{
    proof {
        lemma_fp_ratio_le_one(a, b);
    }
    if b == 0 {
        0
    } else if a >= b {
        SCALE
    } else {
        let wide = (a as u128) * (SCALE as u128) / (b as u128);
        proof {
            assert(a * SCALE / (b as int) < SCALE) by (nonlinear_arith)
                requires 0 < b && a < b && SCALE > 0;
        }
        wide as u64
    }
}

/// `x^e` in fixed point, for `x` at most one.
pub fn fp_pow(x: u64, e: u32) -> (r: u64)
    requires
        x <= SCALE,
    ensures
        r == fp_pow_spec(x, e as nat),
        r <= SCALE,
{
    let mut acc: u64 = SCALE;
    let mut i: u32 = 0;
    while i < e
        invariant
            x <= SCALE,
            i <= e,
            acc == fp_pow_spec(x, i as nat),
            acc <= SCALE,
        decreases e - i,
    {
        proof {
            assert(acc * x <= SCALE * SCALE) by (nonlinear_arith)
                requires acc <= SCALE && x <= SCALE;
            assert(acc * x / (SCALE as int) <= SCALE) by (nonlinear_arith)
                requires acc <= SCALE && x <= SCALE && SCALE > 0;
        }
        acc = ((acc as u128) * (x as u128) / (SCALE as u128)) as u64;
        i = i + 1;
    }
    acc
}

/// The selection score of one candidate (see [`score_spec`]). Degenerate
/// inputs (zero sums) yield zero, never a fault.
pub fn score(vis: u64, w: u64, alfa: u32, beta: u32, vis_sum: u64, pher_sum: u64) -> (r: u64)
    ensures
        r == score_spec(vis, w, alfa, beta, vis_sum, pher_sum),
        r <= SCALE,
{
    proof {
        lemma_score_le_one(vis, w, alfa, beta, vis_sum, pher_sum);
    }
    if pher_sum == 0 {
        return 0;
    }
    let p = fp_pow(fp_ratio(vis, vis_sum), alfa);
    let q = fp_pow(fp_ratio(w, pher_sum), beta);
    proof {
        assert(p * q <= SCALE * SCALE) by (nonlinear_arith)
            requires p <= SCALE && q <= SCALE;
    }
    ((p as u128) * (q as u128) / (SCALE as u128)) as u64
}

} // verus!
