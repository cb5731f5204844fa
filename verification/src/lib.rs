//! Ant-colony search for short-makespan schedules of a precedence-constrained
//! task set.
//!
//! Agents ("ants") repeatedly construct feasible schedules, guided by a static
//! per-task heuristic ("visibility") and a learned pheromone trail; the best
//! schedule over many epochs and independent colonies is reported. All
//! fractional quantities (visibility, pheromone weights, selection scores) are
//! fixed-point numbers scaled by [`SCALE`](fixed::SCALE).

pub mod colony;
pub mod fixed;
pub mod manager_ant;
pub mod pherohormones;
pub mod rng;
pub mod selection;
pub mod taskgraph;
pub mod utils;
pub mod worker_ant;

use vstd::prelude::*;

verus! {

/// An element-for-element copy of a vector of plain values.
pub fn copy_vec<T: Copy>(v: &Vec<T>) -> (r: Vec<T>)
    ensures
        r@ == v@,
{
    let mut r: Vec<T> = Vec::new();
    let n = v.len();
    let mut i: usize = 0;
    while i < n
        invariant
            n == v@.len(),
            i <= n,
            r@ =~= v@.take(i as int),
        decreases n - i,
    {
        r.push(v[i]);
        i = i + 1;
    }
    proof {
        assert(r@ =~= v@);
    }
    r
}

} // verus!
