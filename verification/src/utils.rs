//! The loaded task set: the master precedence graph, per-task costs and
//! dependency counts, out-degrees ("unlocks"), and the derived, normalized
//! visibility heuristic. The file format itself is read elsewhere; this
//! module takes plain task data, validates it, and owns everything derived
//! from it.

use crate::fixed::SCALE;
use crate::rng::rng_below;
use crate::selection::{lemma_prefix_weight_step, prefix_weight, total_weight};
use crate::taskgraph::{
    add_dependency, graph_wf, new_task_graph, node_count, out_neighbors, pred_set, remaining_ok,
    sg_edges, sg_nodes, simple_edges, succ_set,
};
use vstd::prelude::*;
use vstd::set_lib::set_int_range;

verus! {

/// The largest accepted task cost: keeps `cycle + cost` within `i32`.
pub const COST_MAX: i32 = 1_000_000_000;

/// The largest accepted task count: node indices must fit the graph's index
/// type.
pub const TASKS_MAX: usize = 0x7FFF_FFFE;

/// The largest accepted dependency count: edge indices must fit the graph's
/// index type.
pub const EDGES_MAX: usize = 0x7FFF_FFFE;

/// Why a task set is rejected at load time.
#[derive(Clone, Copy, PartialEq, Eq, Structural, Debug)]
pub enum GraphError {
    /// More tasks than the graph's index type can address.
    TooManyTasks,
    /// More dependencies than the graph's index type can address.
    TooManyEdges,
    /// The cost list does not have one entry per task.
    WrongCostCount,
    /// A cost is negative or above [`COST_MAX`].
    CostOutOfRange,
    /// An edge endpoint is out of range, or the same edge is given twice.
    BadEdge,
}

/// The per-task cost ratio `1 - cost/max_cost` in fixed point; zero when the
/// maximum is degenerate.
pub open spec fn cost_ratio_spec(c: i32, mc: i32) -> int {
    if mc <= 0 {
        0
    } else {
        SCALE - c * SCALE / (mc as int)
    }
}

/// The per-task unlocks ratio `unlocks/max_unlocks` in fixed point; zero when
/// the maximum is degenerate.
pub open spec fn unlocks_ratio_spec(u: i32, mu: i32) -> int {
    if mu <= 0 {
        0
    } else {
        u * SCALE / (mu as int)
    }
}

/// A task's visibility before normalization: cheap tasks that unlock many
/// others score high.
pub open spec fn raw_vis_spec(c: i32, u: i32, mc: i32, mu: i32) -> int {
    cost_ratio_spec(c, mc) + unlocks_ratio_spec(u, mu)
}

/// The largest raw visibility among the first `k` tasks (at least zero, as
/// the search starts from zero).
pub open spec fn max_raw_vis(costs: Seq<i32>, unlocks: Seq<i32>, mc: i32, mu: i32, k: int) -> int
    decreases k,
{
    if k <= 0 {
        0
    } else {
        let m = max_raw_vis(costs, unlocks, mc, mu, k - 1);
        let r = raw_vis_spec(costs[k - 1], unlocks[k - 1], mc, mu);
        if m < r {
            r
        } else {
            m
        }
    }
}

/// A task's normalized visibility: its raw visibility divided by the largest
/// raw visibility, in fixed point; zero when that maximum is zero.
pub open spec fn norm_vis_spec(raw: int, max_raw: int) -> int {
    if max_raw == 0 {
        0
    } else {
        raw * SCALE / max_raw
    }
}

/// The largest entry of `s[0..k]`, or `-1` when `k` is zero.
pub open spec fn max_i32_from(s: Seq<i32>, k: int) -> int
    decreases k,
{
    if k <= 0 {
        -1
    } else {
        let m = max_i32_from(s, k - 1);
        if m < s[k - 1] {
            s[k - 1] as int
        } else {
            m
        }
    }
}

pub proof fn lemma_max_i32_from_ge(s: Seq<i32>, k: int)
    requires
        0 <= k <= s.len(),
    ensures
        forall|i: int| 0 <= i < k ==> #[trigger] s[i] <= max_i32_from(s, k),
        max_i32_from(s, k) == -1 || exists|i: int|
            0 <= i < k && #[trigger] s[i] == max_i32_from(s, k),
    decreases k,
{
    if k > 0 {
        lemma_max_i32_from_ge(s, k - 1);
        let m = max_i32_from(s, k - 1);
        if m < s[k - 1] {
            assert(s[k - 1] == max_i32_from(s, k));
        }
    }
}

/// A scaled ratio of `a` to `b` stays within one when `a` is at most `b`.
pub proof fn lemma_scaled_ratio_bounds(a: int, b: int)
    requires
        0 <= a <= b,
        0 < b,
    ensures
        0 <= a * SCALE / b <= SCALE,
{
    vstd::arithmetic::mul::lemma_mul_nonnegative(a, SCALE as int);
    vstd::arithmetic::mul::lemma_mul_inequality(a, b, SCALE as int);
    vstd::arithmetic::div_mod::lemma_div_is_ordered(a * SCALE, b * SCALE, b);
    vstd::arithmetic::div_mod::lemma_div_multiples_vanish(SCALE as int, b);
    vstd::arithmetic::div_mod::lemma_div_pos_is_pos(a * SCALE, b);
    assert(b * SCALE == b * (SCALE as int));
}

pub proof fn lemma_max_raw_vis_ge(costs: Seq<i32>, unlocks: Seq<i32>, mc: i32, mu: i32, k: int)
    requires
        0 <= k,
    ensures
        forall|i: int|
            0 <= i < k ==> raw_vis_spec(#[trigger] costs[i], unlocks[i], mc, mu) <= max_raw_vis(
                costs,
                unlocks,
                mc,
                mu,
                k,
            ),
        max_raw_vis(costs, unlocks, mc, mu, k) >= 0,
    decreases k,
{
    if k > 0 {
        lemma_max_raw_vis_ge(costs, unlocks, mc, mu, k - 1);
    }
}

/// The loaded task set and everything derived from it.
pub struct Utils {
    /// The master precedence graph: an edge `u -> v` means `v` depends on
    /// `u`. Cloned into every epoch, never mutated after load.
    pub di_graph: petgraph::stable_graph::StableDiGraph<i32, i32>,
    pub n_tasks: usize,
    /// Entry `v`: how many of `v`'s dependencies are not yet resolved.
    pub remaining_vec: Vec<usize>,
    /// Entry `v`: how many tasks `v` unlocks (its out-degree).
    pub unlocks_vec: Vec<i32>,
    /// Entry `v`: the duration of task `v`, in cycles.
    pub costs_vec: Vec<i32>,
    pub max_cost: i32,
    pub max_unlocks: i32,
    /// Entry `v`: the normalized visibility of task `v`, in fixed point.
    pub visibility: Vec<u64>,
    pub visibility_sum: u64,
    /// One (deposit_rate, evaporation_rate) pair per colony.
    pub thread_pherohormones: Vec<(u64, u64)>,
}

impl Utils {
    /// The loaded graph data is sound: all nodes live, counters consistent
    /// with the edges, costs within range.
    pub open spec fn graph_loaded(&self) -> bool {
        &&& self.n_tasks <= TASKS_MAX
        &&& graph_wf(self.di_graph, self.n_tasks as int)
        &&& sg_nodes(self.di_graph) =~= set_int_range(0, self.n_tasks as int)
        &&& remaining_ok(self.di_graph, self.remaining_vec@)
        &&& self.remaining_vec@.len() == self.n_tasks
        &&& self.costs_vec@.len() == self.n_tasks
        &&& forall|i: int|
            0 <= i < self.n_tasks ==> 0 <= #[trigger] self.costs_vec@[i] <= COST_MAX
    }

    /// The derived vectors are sound: visibility normalized and summed.
    pub open spec fn arrays_ready(&self) -> bool {
        &&& self.unlocks_vec@.len() == self.n_tasks
        &&& self.visibility@.len() == self.n_tasks
        &&& forall|i: int| 0 <= i < self.n_tasks ==> #[trigger] self.visibility@[i] <= SCALE
        &&& self.visibility_sum == total_weight(self.visibility@)
        &&& self.visibility_sum <= self.n_tasks * SCALE
    }

    /// An empty task set.
    pub fn new() -> (r: Utils)
        ensures
            r.n_tasks == 0,
            r.graph_loaded(),
            r.arrays_ready(),
            r.thread_pherohormones@.len() == 0,
    {
        let di_graph = new_task_graph(0);
        proof {
            vstd::set_lib::lemma_int_range(0, 0);
            assert(total_weight(Seq::<u64>::empty()) == 0);
        }
        Utils {
            di_graph,
            n_tasks: 0,
            remaining_vec: Vec::new(),
            unlocks_vec: Vec::new(),
            costs_vec: Vec::new(),
            max_cost: 0,
            max_unlocks: 0,
            visibility: Vec::new(),
            visibility_sum: 0,
            thread_pherohormones: Vec::new(),
        }
    }

    /// A deep copy of the task set: same graph model, same vectors, shared
    /// storage nowhere.
    pub fn duplicate(&self) -> (r: Utils)
        ensures
            r.n_tasks == self.n_tasks,
            sg_nodes(r.di_graph) == sg_nodes(self.di_graph),
            sg_edges(r.di_graph) == sg_edges(self.di_graph),
            r.remaining_vec@ == self.remaining_vec@,
            r.unlocks_vec@ == self.unlocks_vec@,
            r.costs_vec@ == self.costs_vec@,
            r.max_cost == self.max_cost,
            r.max_unlocks == self.max_unlocks,
            r.visibility@ == self.visibility@,
            r.visibility_sum == self.visibility_sum,
            r.thread_pherohormones@ == self.thread_pherohormones@,
            self.graph_loaded() ==> r.graph_loaded(),
            self.arrays_ready() ==> r.arrays_ready(),
    {
        Utils {
            di_graph: crate::taskgraph::clone_graph(&self.di_graph),
            n_tasks: self.n_tasks,
            remaining_vec: crate::copy_vec(&self.remaining_vec),
            unlocks_vec: crate::copy_vec(&self.unlocks_vec),
            costs_vec: crate::copy_vec(&self.costs_vec),
            max_cost: self.max_cost,
            max_unlocks: self.max_unlocks,
            visibility: crate::copy_vec(&self.visibility),
            visibility_sum: self.visibility_sum,
            thread_pherohormones: crate::copy_vec(&self.thread_pherohormones),
        }
    }

    /// The tasks that `v` directly unlocks: the targets of its outgoing
    /// dependency edges, each exactly once.
    pub fn task_successors(&self, v: usize) -> (r: Vec<usize>)
        requires
            self.graph_loaded(),
        ensures
            r@.no_duplicates(),
            forall|i: int|
                0 <= i < r@.len() ==> succ_set(self.di_graph, v as int).contains(
                    #[trigger] r@[i] as int,
                ),
            forall|b: int|
                succ_set(self.di_graph, v as int).contains(b) ==> exists|i: int|
                    0 <= i < r@.len() && r@[i] as int == b,
    {
        out_neighbors(&self.di_graph, v)
    }

    /// Whether the dependency list names the same directed edge twice.
    pub open spec fn has_duplicate_edge(edges: Seq<(usize, usize)>) -> bool {
        exists|k: int, l: int| 0 <= k < l < edges.len() && edges[k] == edges[l]
    }

    /// Whether some dependency names a task outside `0..n_tasks`.
    pub open spec fn has_out_of_range_edge(edges: Seq<(usize, usize)>, n_tasks: int) -> bool {
        exists|k: int|
            0 <= k < edges.len() && !((#[trigger] edges[k]).0 < n_tasks && edges[k].1 < n_tasks)
    }

    /// Builds the master graph from plain loader output: a task count, one
    /// cost per task, and the dependency edges `(u, v)` meaning `v` waits for
    /// `u`. Malformed data is rejected outright and leaves the task set
    /// untouched; each error names exactly the inputs on which it arises.
    #[verifier::loop_isolation(false)]
    pub fn load_graph(
        &mut self,
        n_tasks: usize,
        costs: Vec<i32>,
        edges: Vec<(usize, usize)>,
    ) -> (r: Result<(), GraphError>)
        ensures
            r == Ok::<(), GraphError>(()) <==> n_tasks <= TASKS_MAX && edges@.len() <= EDGES_MAX
                && costs@.len() == n_tasks && (forall|i: int|
                0 <= i < costs@.len() ==> 0 <= #[trigger] costs@[i] <= COST_MAX)
                && !Self::has_out_of_range_edge(edges@, n_tasks as int)
                && !Self::has_duplicate_edge(edges@),
            r == Err::<(), GraphError>(GraphError::TooManyTasks) <==> n_tasks > TASKS_MAX,
            r == Err::<(), GraphError>(GraphError::TooManyEdges) <==> n_tasks <= TASKS_MAX
                && edges@.len() > EDGES_MAX,
            r == Err::<(), GraphError>(GraphError::WrongCostCount) <==> n_tasks <= TASKS_MAX
                && edges@.len() <= EDGES_MAX && costs@.len() != n_tasks,
            r == Err::<(), GraphError>(GraphError::CostOutOfRange) <==> n_tasks <= TASKS_MAX
                && edges@.len() <= EDGES_MAX && costs@.len() == n_tasks && (exists|i: int|
                0 <= i < costs@.len() && !(0 <= #[trigger] costs@[i] <= COST_MAX)),
            r == Err::<(), GraphError>(GraphError::BadEdge) <==> n_tasks <= TASKS_MAX
                && edges@.len() <= EDGES_MAX && costs@.len() == n_tasks && (forall|i: int|
                0 <= i < costs@.len() ==> 0 <= #[trigger] costs@[i] <= COST_MAX) && (
            Self::has_out_of_range_edge(edges@, n_tasks as int) || Self::has_duplicate_edge(
                edges@,
            )),
            r is Ok ==> final(self).graph_loaded() && final(self).n_tasks == n_tasks
                && final(self).costs_vec@ == costs@ && (forall|a: int, b: int|
                sg_edges(final(self).di_graph).count((a, b)) == (if 0 <= a < n_tasks && 0 <= b
                    < n_tasks && edges@.contains((a as usize, b as usize)) {
                    1int
                } else {
                    0int
                })) && final(self).max_cost == old(self).max_cost && final(self).max_unlocks
                == old(self).max_unlocks && final(self).unlocks_vec@ == old(self).unlocks_vec@
                && final(self).visibility@ == old(self).visibility@ && final(self).visibility_sum
                == old(self).visibility_sum && final(self).thread_pherohormones@ == old(
                self,
            ).thread_pherohormones@,
            r is Err ==> *final(self) == *old(self),
    {
        if n_tasks > TASKS_MAX {
            return Err(GraphError::TooManyTasks);
        }
        if edges.len() > EDGES_MAX {
            return Err(GraphError::TooManyEdges);
        }
        if costs.len() != n_tasks {
            return Err(GraphError::WrongCostCount);
        }
        let mut i: usize = 0;
        while i < n_tasks
            invariant
                i <= n_tasks,
                forall|j: int| 0 <= j < i ==> 0 <= #[trigger] costs@[j] <= COST_MAX,
            decreases n_tasks - i,
        {
            let c = costs[i];
            if c < 0 || c > COST_MAX {
                return Err(GraphError::CostOutOfRange);
            }
            i = i + 1;
        }
        let m = edges.len();
        let mut k: usize = 0;
        while k < m
            invariant
                k <= m,
                forall|j: int|
                    0 <= j < k ==> (#[trigger] edges@[j]).0 < n_tasks && edges@[j].1 < n_tasks,
                forall|j: int, l: int| 0 <= j < l < k ==> edges@[j] != edges@[l],
            decreases m - k,
        {
            let e = edges[k];
            if e.0 >= n_tasks || e.1 >= n_tasks {
                return Err(GraphError::BadEdge);
            }
            let mut l: usize = 0;
            while l < k
                invariant
                    k < m,
                    l <= k,
                    forall|j: int| 0 <= j < l ==> edges@[j] != edges@[k as int],
                decreases k - l,
            {
                let e2 = edges[l];
                if e2.0 == e.0 && e2.1 == e.1 {
                    return Err(GraphError::BadEdge);
                }
                l = l + 1;
            }
            k = k + 1;
        }
        // The data is sound: build the graph and the dependency counters.
        let mut g = new_task_graph(n_tasks);
        proof {
            vstd::set_lib::lemma_int_range(0, n_tasks as int);
            broadcast use vstd::multiset::group_multiset_axioms;

        }
        let mut remaining: Vec<usize> = Vec::new();
        let mut v: usize = 0;
        while v < n_tasks
            invariant
                v <= n_tasks,
                remaining@.len() == v,
                forall|j: int| 0 <= j < v ==> #[trigger] remaining@[j] == 0,
            decreases n_tasks - v,
        {
            remaining.push(0);
            v = v + 1;
        }
        proof {
            assert(edges@.take(0) =~= Seq::<(usize, usize)>::empty());
            assert forall|b: int| 0 <= b < n_tasks implies #[trigger] remaining@[b] == pred_set(
                g,
                b,
            ).len() by {
                assert(pred_set(g, b) =~= Set::<int>::empty());
            }
        }
        let mut k2: usize = 0;
        while k2 < m
            invariant
                k2 <= m,
                forall|j: int|
                    0 <= j < m ==> (#[trigger] edges@[j]).0 < n_tasks && edges@[j].1 < n_tasks,
                forall|j: int, l: int| 0 <= j < l < m ==> edges@[j] != edges@[l],
                sg_nodes(g) =~= set_int_range(0, n_tasks as int),
                sg_nodes(g).finite(),
                forall|a: int, b: int|
                    #[trigger] sg_edges(g).count((a, b)) == (if 0 <= a < n_tasks && 0 <= b
                        < n_tasks && edges@.take(k2 as int).contains((a as usize, b as usize)) {
                        1int
                    } else {
                        0int
                    }),
                sg_edges(g).len() == k2,
                remaining@.len() == n_tasks,
                forall|b: int|
                    0 <= b < n_tasks ==> #[trigger] remaining@[b] == pred_set(g, b).len(),
            decreases m - k2,
        {
            broadcast use vstd::multiset::group_multiset_axioms;

            let e = edges[k2];
            let ghost ea = e.0 as int;
            let ghost eb = e.1 as int;
            proof {
                assert forall|p: (usize, usize)|
                    edges@.take(k2 as int + 1).contains(p) <==> (edges@.take(k2 as int).contains(
                    p,
                ) || p == edges@[k2 as int]) by {
                    assert(edges@.take(k2 as int + 1) =~= edges@.take(k2 as int).push(
                        edges@[k2 as int],
                    ));
                    if edges@.take(k2 as int).contains(p) {
                        let j = choose|j: int|
                            0 <= j < k2 && #[trigger] edges@.take(k2 as int)[j] == p;
                        assert(edges@.take(k2 as int + 1)[j] == p);
                    }
                    if p == edges@[k2 as int] {
                        assert(edges@.take(k2 as int + 1)[k2 as int] == p);
                    }
                }
                assert(!edges@.take(k2 as int).contains(edges@[k2 as int])) by {
                    if edges@.take(k2 as int).contains(edges@[k2 as int]) {
                        let j = choose|j: int|
                            0 <= j < k2 && #[trigger] edges@.take(k2 as int)[j] == edges@[
                            k2 as int];
                        assert(edges@[j] == edges@[k2 as int]);
                    }
                }
                assert(sg_edges(g).count((ea, eb)) == 0);
            }
            let ghost g0 = g;
            add_dependency(&mut g, e.0, e.1);
            let old_r = remaining[e.1];
            proof {
                assert forall|a: int, b: int|
                    #[trigger] sg_edges(g).count((a, b)) == (if 0 <= a < n_tasks && 0 <= b
                        < n_tasks && edges@.take(k2 as int + 1).contains((a as usize, b as usize)) {
                        1int
                    } else {
                        0int
                    }) by {
                    assert(sg_edges(g).count((a, b)) == sg_edges(g0).count((a, b)) + (if (a, b)
                        == (ea, eb) {
                        1int
                    } else {
                        0int
                    }));
                }
                // Every other task's predecessor set is untouched; `e.1`'s
                // gains `e.0`.
                assert forall|b: int| 0 <= b < n_tasks && b != eb implies pred_set(g, b)
                    =~= pred_set(g0, b) by {}
                assert(pred_set(g, eb) =~= pred_set(g0, eb).insert(ea));
                assert(!pred_set(g0, eb).contains(ea));
                assert(pred_set(g0, eb).subset_of(sg_nodes(g0)));
                vstd::set_lib::lemma_set_subset_finite(sg_nodes(g0), pred_set(g0, eb));
                vstd::set::axiom_set_insert_len(pred_set(g0, eb), ea);
                assert(old_r < n_tasks) by {
                    pred_set(g0, eb).lemma_subset_not_in_lt(sg_nodes(g0), ea);
                    vstd::set_lib::lemma_int_range(0, n_tasks as int);
                }
            }
            remaining.set(e.1, old_r + 1);
            proof {
                assert(remaining@[eb] == pred_set(g, eb).len());
            }
            k2 = k2 + 1;
        }
        proof {
            assert(edges@.take(m as int) =~= edges@);
            assert forall|e: (int, int)| sg_edges(g).count(e) <= 1 by {
                assert(e == (e.0, e.1));
                assert(sg_edges(g).count((e.0, e.1)) <= 1);
            }
            assert(simple_edges(sg_edges(g)));
            assert forall|p: (int, int)| sg_edges(g).count(p) >= 1 implies sg_nodes(g).contains(
                p.0,
            ) && sg_nodes(g).contains(p.1) by {
                assert(sg_edges(g).count((p.0, p.1)) >= 1);
            }
        }
        self.di_graph = g;
        self.n_tasks = n_tasks;
        self.remaining_vec = remaining;
        self.costs_vec = costs;
        Ok(())
    }
}

impl Utils {
    /// Records the largest cost and the largest unlocks count over all
    /// tasks (`-1` when there are no tasks).
    pub fn find_max_cost_unlocks(&mut self)
        requires
            old(self).costs_vec@.len() == old(self).n_tasks,
            old(self).unlocks_vec@.len() == old(self).n_tasks,
        ensures
            final(self).max_cost == max_i32_from(
                old(self).costs_vec@,
                old(self).n_tasks as int,
            ),
            final(self).max_unlocks == max_i32_from(
                old(self).unlocks_vec@,
                old(self).n_tasks as int,
            ),
            final(self).di_graph == old(self).di_graph,
            final(self).n_tasks == old(self).n_tasks,
            final(self).remaining_vec@ == old(self).remaining_vec@,
            final(self).unlocks_vec@ == old(self).unlocks_vec@,
            final(self).costs_vec@ == old(self).costs_vec@,
            final(self).visibility@ == old(self).visibility@,
            final(self).visibility_sum == old(self).visibility_sum,
            final(self).thread_pherohormones@ == old(self).thread_pherohormones@,
    {
        let n = self.n_tasks;
        let mut max_cost: i32 = -1;
        let mut max_unlocks: i32 = -1;
        let mut i: usize = 0;
        while i < n
            invariant
                n == self.n_tasks,
                self == old(self),
                self.costs_vec@.len() == n,
                self.unlocks_vec@.len() == n,
                i <= n,
                max_cost == max_i32_from(self.costs_vec@, i as int),
                max_unlocks == max_i32_from(self.unlocks_vec@, i as int),
            decreases n - i,
        {
            if max_cost < self.costs_vec[i] {
                max_cost = self.costs_vec[i];
            }
            if max_unlocks < self.unlocks_vec[i] {
                max_unlocks = self.unlocks_vec[i];
            }
            i = i + 1;
        }
        self.max_cost = max_cost;
        self.max_unlocks = max_unlocks;
    }

    /// Recomputes each task's unlocks count as its out-degree in the master
    /// graph.
    #[verifier::loop_isolation(false)]
    pub fn update_weights_unlocks(&mut self)
        requires
            old(self).graph_loaded(),
        ensures
            final(self).unlocks_vec@.len() == old(self).n_tasks,
            forall|v: int|
                0 <= v < old(self).n_tasks ==> #[trigger] final(self).unlocks_vec@[v]
                    == succ_set(old(self).di_graph, v).len(),
            forall|v: int|
                0 <= v < old(self).n_tasks ==> 0 <= #[trigger] final(self).unlocks_vec@[v]
                    <= old(self).n_tasks,
            final(self).di_graph == old(self).di_graph,
            final(self).n_tasks == old(self).n_tasks,
            final(self).remaining_vec@ == old(self).remaining_vec@,
            final(self).costs_vec@ == old(self).costs_vec@,
            final(self).max_cost == old(self).max_cost,
            final(self).max_unlocks == old(self).max_unlocks,
            final(self).visibility@ == old(self).visibility@,
            final(self).visibility_sum == old(self).visibility_sum,
            final(self).thread_pherohormones@ == old(self).thread_pherohormones@,
    {
        let n = self.n_tasks;
        let mut unlocks: Vec<i32> = Vec::new();
        let mut i: usize = 0;
        while i < n
            invariant
                self == old(self),
                n == self.n_tasks,
                i <= n,
                unlocks@.len() == i,
                forall|v: int|
                    0 <= v < i ==> #[trigger] unlocks@[v] == succ_set(self.di_graph, v).len(),
                forall|v: int| 0 <= v < i ==> 0 <= #[trigger] unlocks@[v] <= n,
            decreases n - i,
        {
            let nb = out_neighbors(&self.di_graph, i);
            proof {
                crate::taskgraph::lemma_out_neighbors_card(
                    self.di_graph,
                    i as int,
                    n as int,
                    nb@,
                );
                crate::taskgraph::lemma_succ_set_finite(self.di_graph, i as int, n as int);
                vstd::set_lib::lemma_int_range(0, n as int);
            }
            unlocks.push(nb.len() as i32);
            i = i + 1;
        }
        self.unlocks_vec = unlocks;
    }

    /// Recomputes the visibility heuristic: per task, the fixed-point sum of
    /// its cost ratio and unlocks ratio, normalized by the largest such sum,
    /// with every degenerate denominator treated as a zero ratio; then caches
    /// the vector's sum.
    #[verifier::loop_isolation(false)]
    pub fn update_visibility(&mut self)
        requires
            old(self).n_tasks <= TASKS_MAX,
            old(self).costs_vec@.len() == old(self).n_tasks,
            old(self).unlocks_vec@.len() == old(self).n_tasks,
            forall|i: int|
                0 <= i < old(self).n_tasks ==> 0 <= #[trigger] old(self).costs_vec@[i]
                    <= old(self).max_cost || old(self).max_cost <= 0,
            forall|i: int| 0 <= i < old(self).n_tasks ==> 0 <= #[trigger] old(self).costs_vec@[i],
            forall|i: int|
                0 <= i < old(self).n_tasks ==> 0 <= #[trigger] old(self).unlocks_vec@[i]
                    <= old(self).max_unlocks || old(self).max_unlocks <= 0,
            forall|i: int|
                0 <= i < old(self).n_tasks ==> 0 <= #[trigger] old(self).unlocks_vec@[i],
        ensures
            final(self).visibility@.len() == old(self).n_tasks,
            forall|i: int|
                0 <= i < old(self).n_tasks ==> #[trigger] final(self).visibility@[i]
                    == norm_vis_spec(
                    raw_vis_spec(
                        old(self).costs_vec@[i],
                        old(self).unlocks_vec@[i],
                        old(self).max_cost,
                        old(self).max_unlocks,
                    ),
                    max_raw_vis(
                        old(self).costs_vec@,
                        old(self).unlocks_vec@,
                        old(self).max_cost,
                        old(self).max_unlocks,
                        old(self).n_tasks as int,
                    ),
                ),
            forall|i: int|
                0 <= i < old(self).n_tasks ==> #[trigger] final(self).visibility@[i] <= SCALE,
            final(self).visibility_sum == total_weight(final(self).visibility@),
            final(self).visibility_sum <= old(self).n_tasks * SCALE,
            final(self).di_graph == old(self).di_graph,
            final(self).n_tasks == old(self).n_tasks,
            final(self).remaining_vec@ == old(self).remaining_vec@,
            final(self).unlocks_vec@ == old(self).unlocks_vec@,
            final(self).costs_vec@ == old(self).costs_vec@,
            final(self).max_cost == old(self).max_cost,
            final(self).max_unlocks == old(self).max_unlocks,
            final(self).thread_pherohormones@ == old(self).thread_pherohormones@,
    {
        let n = self.n_tasks;
        let mc = self.max_cost;
        let mu = self.max_unlocks;
        let mut raws: Vec<u64> = Vec::new();
        let mut mx: u64 = 0;
        let mut i: usize = 0;
        while i < n
            invariant
                self == old(self),
                n == self.n_tasks,
                mc == self.max_cost,
                mu == self.max_unlocks,
                i <= n,
                raws@.len() == i,
                forall|v: int|
                    0 <= v < i ==> #[trigger] raws@[v] == raw_vis_spec(
                        self.costs_vec@[v],
                        self.unlocks_vec@[v],
                        mc,
                        mu,
                    ),
                forall|v: int| 0 <= v < i ==> #[trigger] raws@[v] <= 2 * SCALE,
                mx == max_raw_vis(self.costs_vec@, self.unlocks_vec@, mc, mu, i as int),
                mx <= 2 * SCALE,
            decreases n - i,
        {
            let c = self.costs_vec[i];
            let u = self.unlocks_vec[i];
            let cost_ratio: u64 = if mc <= 0 {
                0
            } else {
                proof {
                    lemma_scaled_ratio_bounds(c as int, mc as int);
                }
                SCALE - (c as u64) * SCALE / (mc as u64)
            };
            let unlocks_ratio: u64 = if mu <= 0 {
                0
            } else {
                proof {
                    lemma_scaled_ratio_bounds(u as int, mu as int);
                }
                (u as u64) * SCALE / (mu as u64)
            };
            let raw = cost_ratio + unlocks_ratio;
            proof {
                assert(raw == raw_vis_spec(c, u, mc, mu));
            }
            raws.push(raw);
            if mx < raw {
                mx = raw;
            }
            i = i + 1;
        }
        let ghost max_raw = max_raw_vis(self.costs_vec@, self.unlocks_vec@, mc, mu, n as int);
        proof {
            lemma_max_raw_vis_ge(self.costs_vec@, self.unlocks_vec@, mc, mu, n as int);
        }
        let mut vis: Vec<u64> = Vec::new();
        let mut j: usize = 0;
        while j < n
            invariant
                self == old(self),
                n == self.n_tasks,
                mc == self.max_cost,
                mu == self.max_unlocks,
                j <= n,
                raws@.len() == n,
                forall|v: int|
                    0 <= v < n ==> #[trigger] raws@[v] == raw_vis_spec(
                        self.costs_vec@[v],
                        self.unlocks_vec@[v],
                        mc,
                        mu,
                    ),
                forall|v: int| 0 <= v < n ==> #[trigger] raws@[v] <= 2 * SCALE,
                mx == max_raw,
                mx <= 2 * SCALE,
                forall|v: int| 0 <= v < n ==> #[trigger] raws@[v] <= mx,
                vis@.len() == j,
                forall|v: int|
                    0 <= v < j ==> #[trigger] vis@[v] == norm_vis_spec(raws@[v] as int, mx as int),
                forall|v: int| 0 <= v < j ==> #[trigger] vis@[v] <= SCALE,
            decreases n - j,
        {
            let raw = raws[j];
            let nv: u64 = if mx == 0 {
                0
            } else {
                proof {
                    lemma_scaled_ratio_bounds(raw as int, mx as int);
                }
                raw * SCALE / mx
            };
            vis.push(nv);
            j = j + 1;
        }
        let mut sum: u64 = 0;
        let mut k: usize = 0;
        while k < n
            invariant
                n == self.n_tasks,
                n <= TASKS_MAX,
                k <= n,
                vis@.len() == n,
                forall|v: int| 0 <= v < n ==> #[trigger] vis@[v] <= SCALE,
                sum == prefix_weight(vis@, k as int),
                sum <= k * SCALE,
            decreases n - k,
        {
            proof {
                lemma_prefix_weight_step(vis@, k as int);
                assert((k + 1) * SCALE <= n * SCALE) by (nonlinear_arith)
                    requires
                        k + 1 <= n,
                        SCALE > 0,
                ;
                assert(n * SCALE <= TASKS_MAX * SCALE) by (nonlinear_arith)
                    requires
                        n <= TASKS_MAX,
                        SCALE > 0,
                ;
                assert(k * SCALE + SCALE == (k + 1) * SCALE) by (nonlinear_arith);
            }
            sum = sum + vis[k];
            k = k + 1;
        }
        self.visibility = vis;
        self.visibility_sum = sum;
        proof {
            assert forall|v: int| 0 <= v < n implies #[trigger] self.visibility@[v]
                == norm_vis_spec(
                raw_vis_spec(self.costs_vec@[v], self.unlocks_vec@[v], mc, mu),
                max_raw,
            ) by {
                assert(self.visibility@[v] == norm_vis_spec(raws@[v] as int, mx as int));
            }
        }
    }

    /// Derives everything from the loaded graph: the task count, the unlocks
    /// counts, the maxima, and the normalized visibility vector with its sum.
    pub fn init_arrays(&mut self)
        requires
            old(self).graph_loaded(),
        ensures
            final(self).graph_loaded(),
            final(self).arrays_ready(),
            final(self).n_tasks == old(self).n_tasks,
            final(self).di_graph == old(self).di_graph,
            final(self).remaining_vec@ == old(self).remaining_vec@,
            final(self).costs_vec@ == old(self).costs_vec@,
            forall|v: int|
                0 <= v < old(self).n_tasks ==> #[trigger] final(self).unlocks_vec@[v]
                    == succ_set(old(self).di_graph, v).len(),
            final(self).max_cost == max_i32_from(
                old(self).costs_vec@,
                old(self).n_tasks as int,
            ),
            final(self).thread_pherohormones@ == old(self).thread_pherohormones@,
    {
        let n = node_count(&self.di_graph);
        proof {
            vstd::set_lib::lemma_int_range(0, self.n_tasks as int);
        }
        self.n_tasks = n;
        self.update_weights_unlocks();
        self.find_max_cost_unlocks();
        proof {
            lemma_max_i32_from_ge(self.costs_vec@, self.n_tasks as int);
            lemma_max_i32_from_ge(self.unlocks_vec@, self.n_tasks as int);
        }
        self.update_visibility();
        proof {
            let ns = self.n_tasks as int;
            assert(self.visibility_sum <= ns * SCALE);
        }
    }

    /// Draws one (deposit_rate, evaporation_rate) pair per colony: the
    /// deposit rate is the given base, the evaporation rate is uniform
    /// between a tenth and three quarters of it.
    #[verifier::loop_isolation(false)]
    pub fn init_parameters_vec(
        &mut self,
        n_threads: usize,
        deposit_base: u64,
        rng: &mut rand::rngs::StdRng,
    )
        requires
            deposit_base >= 1,
            deposit_base <= u64::MAX / 3,
        ensures
            final(self).thread_pherohormones@.len() == n_threads,
            forall|p: int|
                0 <= p < n_threads ==> (#[trigger] final(self).thread_pherohormones@[p]).0
                    == deposit_base,
            forall|p: int|
                0 <= p < n_threads ==> deposit_base / 10 <= (
                #[trigger] final(self).thread_pherohormones@[p]).1,
            forall|p: int|
                0 <= p < n_threads ==> (deposit_base * 3 / 4 > deposit_base / 10 ==> (
                #[trigger] final(self).thread_pherohormones@[p]).1 < deposit_base * 3 / 4),
            final(self).di_graph == old(self).di_graph,
            final(self).n_tasks == old(self).n_tasks,
            final(self).remaining_vec@ == old(self).remaining_vec@,
            final(self).unlocks_vec@ == old(self).unlocks_vec@,
            final(self).costs_vec@ == old(self).costs_vec@,
            final(self).max_cost == old(self).max_cost,
            final(self).max_unlocks == old(self).max_unlocks,
            final(self).visibility@ == old(self).visibility@,
            final(self).visibility_sum == old(self).visibility_sum,
    {
        let lo = deposit_base / 10;
        let hi = deposit_base * 3 / 4;
        let mut pairs: Vec<(u64, u64)> = Vec::new();
        let mut i: usize = 0;
        while i < n_threads
            invariant
                lo == deposit_base / 10,
                hi == deposit_base * 3 / 4,
                i <= n_threads,
                pairs@.len() == i,
                forall|p: int| 0 <= p < i ==> (#[trigger] pairs@[p]).0 == deposit_base,
                forall|p: int| 0 <= p < i ==> lo <= (#[trigger] pairs@[p]).1,
                forall|p: int| 0 <= p < i ==> (hi > lo ==> (#[trigger] pairs@[p]).1 < hi),
            decreases n_threads - i,
        {
            let evaporation_rate = if hi > lo {
                lo + rng_below(rng, hi - lo)
            } else {
                lo
            };
            pairs.push((deposit_base, evaporation_rate));
            i = i + 1;
        }
        self.thread_pherohormones = pairs;
    }
}

} // verus!
