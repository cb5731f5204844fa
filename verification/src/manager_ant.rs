//! The epoch runner: one complete simulated construction of a schedule, from
//! an intact precedence graph down to an empty one. Each cycle, ants whose
//! task has finished complete it (unlocking its successors), then idle ants
//! pick from the available tasks by weighted random selection.

use crate::fixed::{score, SCALE};
use crate::pherohormones::Pherohormones;
use crate::rng::rng_below;
use crate::selection::{
    lemma_prefix_weight_mono, lemma_prefix_weight_step, lemma_total_weight_bound, select_weighted,
    sum_of_weights, total_weight,
};
use crate::taskgraph::{
    edges_without, graph_wf, node_count, out_neighbors, pred_of, pred_set, remaining_ok,
    remove_task, sg_edges, sg_nodes,
};
use crate::utils::{Utils, COST_MAX, TASKS_MAX};
use crate::worker_ant::WorkerAnt;
use vstd::multiset::Multiset;
use vstd::prelude::*;
use vstd::set_lib::set_int_range;

verus! {

/// The largest cycle the runner will simulate: `CYCLE_CAP + COST_MAX` still
/// fits an `i32`, so an ant's free-at time never overflows. A well-formed
/// (acyclic) task graph finishes far below it; the cap only stops a cyclic
/// one from spinning forever.
pub const CYCLE_CAP: i32 = 1_000_000_000;

/// The largest accepted exploration floor: keeps a candidate list's total
/// weight within `u64`.
pub const BASE_MAX: u64 = 4_000_000_000;

/// The edges left when every edge incident to a task of `s` is dropped.
pub open spec fn edges_outside(m: Multiset<(int, int)>, s: Set<int>) -> Multiset<(int, int)> {
    m.filter(|e: (int, int)| !s.contains(e.0) && !s.contains(e.1))
}

/// The pheromone weight consulted for a candidate: the trail edge from the
/// ant's last completed task, zero when there is no last task or no such
/// edge.
pub open spec fn trail_weight(m: Map<(int, int), u64>, last: i32, t: int) -> u64 {
    if last == -1 {
        0u64
    } else if m.contains_key((last as int, t)) {
        m[(last as int, t)]
    } else {
        0u64
    }
}

pub struct ManagerAnt {
    pub n_ants: usize,
    pub ants: Vec<WorkerAnt>,
    /// The runner's private clone of the master precedence graph, consumed
    /// down to empty as tasks complete.
    pub di_graph: petgraph::stable_graph::StableDiGraph<i32, i32>,
    pub n_tasks: usize,
    pub remaining_vec: Vec<usize>,
    pub costs_vec: Vec<i32>,
    pub available_tasks: Vec<bool>,
    pub visibility_vec: Vec<u64>,
    pub visibility_sum: u64,
    pub current_cycle: i32,
    /// The runner's private clone of the colony's trail; deposits land here,
    /// and the colony decides afterwards whether to adopt it.
    pub local_pherohormones: Pherohormones,
    pub evaporation_rate: u64,
    pub deposit_rate: u64,
    pub alfa: u32,
    pub beta: u32,
    pub base_chance: u64,
    /// The largest selection score seen so far (before the exploration floor
    /// is added): diagnostic feedback for retuning the floor between epochs.
    pub max_weight: u64,
}

impl ManagerAnt {
    /// The runner's invariant, kept across every phase of every cycle.
    pub open spec fn wf(&self) -> bool {
        &&& self.n_tasks <= TASKS_MAX
        &&& graph_wf(self.di_graph, self.n_tasks as int)
        &&& remaining_ok(self.di_graph, self.remaining_vec@)
        &&& self.remaining_vec@.len() == self.n_tasks
        &&& self.costs_vec@.len() == self.n_tasks
        &&& forall|i: int|
            0 <= i < self.n_tasks ==> 0 <= #[trigger] self.costs_vec@[i] <= COST_MAX
        &&& self.available_tasks@.len() == self.n_tasks
        &&& self.visibility_vec@.len() == self.n_tasks
        &&& forall|i: int| 0 <= i < self.n_tasks ==> #[trigger] self.visibility_vec@[i] <= SCALE
        &&& self.ants@.len() == self.n_ants
        &&& forall|a: int|
            0 <= a < self.n_ants ==> (#[trigger] self.ants@[a]).task_history@.len()
                == self.n_tasks
        &&& forall|a: int|
            0 <= a < self.n_ants ==> (#[trigger] self.ants@[a]).last_task == -1 || 0
                <= self.ants@[a].last_task < self.n_tasks
        &&& forall|a: int|
            0 <= a < self.n_ants ==> (#[trigger] self.ants@[a]).current_task == -1 || (0
                <= self.ants@[a].current_task < self.n_tasks && sg_nodes(self.di_graph).contains(
                self.ants@[a].current_task as int,
            ) && self.remaining_vec@[self.ants@[a].current_task as int] == 0
                && !self.available_tasks@[self.ants@[a].current_task as int])
        &&& forall|a: int, b: int|
            0 <= a < self.n_ants && 0 <= b < self.n_ants && a != b ==> (
            #[trigger] self.ants@[a]).current_task == -1 || self.ants@[a].current_task != (
            #[trigger] self.ants@[b]).current_task
        &&& forall|v: int|
            0 <= v < self.n_tasks && #[trigger] self.available_tasks@[v] ==> sg_nodes(
                self.di_graph,
            ).contains(v) && self.remaining_vec@[v] == 0 && (forall|a: int|
                0 <= a < self.n_ants ==> (#[trigger] self.ants@[a]).current_task != v)
        &&& 0 <= self.current_cycle <= CYCLE_CAP
        &&& self.local_pherohormones.wf()
        &&& self.local_pherohormones.spec_n_tasks() == self.n_tasks
        &&& self.deposit_rate >= 1
        &&& 1 <= self.base_chance <= BASE_MAX
        &&& self.max_weight <= SCALE
    }

    /// A runner that has not simulated anything yet: cycle zero, all ants
    /// idle and fresh, the whole task set still live.
    pub open spec fn fresh(&self) -> bool {
        &&& self.current_cycle == 0
        &&& sg_nodes(self.di_graph) =~= set_int_range(0, self.n_tasks as int)
        &&& forall|a: int|
            0 <= a < self.n_ants ==> (#[trigger] self.ants@[a]).current_task == -1
                && self.ants@[a].last_task == -1
    }

    /// The selection score of task `t` for an ant whose last completed task
    /// is `last`: the fixed-point weighting of visibility against the learned
    /// trail, before the exploration floor is added.
    pub open spec fn task_score(&self, last: i32, t: int) -> u64 {
        crate::fixed::score_spec(
            self.visibility_vec@[t],
            trail_weight(self.local_pherohormones@, last, t),
            self.alfa,
            self.beta,
            self.visibility_sum,
            self.local_pherohormones.spec_pheromones_sum(),
        )
    }

    /// The diagnostic maximum after scanning the first `k` tasks: the
    /// recorded maximum joined with the scores of the available tasks among
    /// them.
    pub open spec fn max_weight_scan(&self, last: i32, k: int) -> u64
        decreases k,
    {
        if k <= 0 {
            self.max_weight
        } else {
            let m = self.max_weight_scan(last, k - 1);
            if self.available_tasks@[k - 1] && self.task_score(last, k - 1) > m {
                self.task_score(last, k - 1)
            } else {
                m
            }
        }
    }

    /// The candidate list one assignment attempt scans: the available tasks
    /// among the first `k`, in increasing task-id order.
    pub open spec fn candidate_list(&self, k: int) -> Seq<usize>
        decreases k,
    {
        if k <= 0 {
            Seq::empty()
        } else {
            let r = self.candidate_list(k - 1);
            if self.available_tasks@[k - 1] {
                r.push((k - 1) as usize)
            } else {
                r
            }
        }
    }

    /// The roulette weights of those candidates: each candidate's selection
    /// score plus the exploration floor.
    pub open spec fn weight_list(&self, last: i32, k: int) -> Seq<u64>
        decreases k,
    {
        if k <= 0 {
            Seq::empty()
        } else {
            let r = self.weight_list(last, k - 1);
            if self.available_tasks@[k - 1] {
                r.push((self.task_score(last, k - 1) + self.base_chance) as u64)
            } else {
                r
            }
        }
    }

    /// Whether no task is currently available.
    pub open spec fn no_task_available(&self) -> bool {
        forall|v: int| 0 <= v < self.n_tasks ==> !self.available_tasks@[v]
    }

    /// The effect of one successful selection: the previously available task
    /// `t` is claimed by ant `free_ant` — its availability cleared the
    /// instant it is chosen — the ant runs it until `current_cycle + cost`,
    /// its timeline interval opens, and pheromone is deposited on the
    /// transition exactly when the ant has a defined last task. Everything
    /// else stands still (the diagnostic maximum is accounted separately).
    pub open spec fn assigned(pre: ManagerAnt, post: ManagerAnt, free_ant: int, t: int) -> bool {
        let last = pre.ants@[free_ant].last_task;
        &&& 0 <= t < pre.n_tasks
        &&& pre.available_tasks@[t]
        &&& post.available_tasks@ == pre.available_tasks@.update(t, false)
        &&& post.ants@.len() == pre.ants@.len()
        &&& forall|a: int|
            0 <= a < pre.ants@.len() && a != free_ant ==> #[trigger] post.ants@[a]
                == pre.ants@[a]
        &&& post.ants@[free_ant].current_task == t as i32
        &&& post.ants@[free_ant].free_at == pre.current_cycle + pre.costs_vec@[t]
        &&& post.ants@[free_ant].last_task == last
        &&& post.ants@[free_ant].task_history@ == pre.ants@[free_ant].task_history@.update(
            t,
            (t as i32, pre.current_cycle, -1i32),
        )
        &&& (last == -1 ==> post.local_pherohormones@ == pre.local_pherohormones@)
        &&& (last != -1 ==> post.local_pherohormones@ =~= crate::pherohormones::deposited(
            pre.local_pherohormones@,
            last as int,
            t,
            pre.deposit_rate,
        ))
        &&& post.local_pherohormones.spec_pheromones_sum()
            == pre.local_pherohormones.spec_pheromones_sum()
    }

    /// Whether ant `a` is due to complete its task this cycle: it holds one
    /// and its busy time is up.
    pub open spec fn ant_due(&self, a: int) -> bool {
        self.ants@[a].free_at <= self.current_cycle && self.ants@[a].current_task != -1
    }

    /// The tasks completed by the first `upto` ants of one completion phase:
    /// the current tasks of the due ants among them.
    pub open spec fn completed_tasks(&self, upto: int) -> Set<int> {
        Set::new(
            |v: int|
                exists|a: int|
                    0 <= a < upto && self.ant_due(a) && (#[trigger] self.ants@[a]).current_task
                        == v,
        )
    }

    /// An idle ant's disposition after one assignment phase: either its
    /// attempt found nothing and it is untouched, or it claimed one
    /// previously available task `t` — availability gone, busy until
    /// `current_cycle + cost`, timeline opened — while keeping its last task.
    pub open spec fn idle_kept_or_assigned(pre: ManagerAnt, post: ManagerAnt, a: int) -> bool {
        post.ants@[a] == pre.ants@[a] || (exists|t: int|
            0 <= t < pre.n_tasks && pre.available_tasks@[t] && !post.available_tasks@[t]
                && post.ants@[a].current_task == (t as i32) && post.ants@[a].free_at
                == pre.current_cycle + pre.costs_vec@[t] && post.ants@[a].last_task
                == pre.ants@[a].last_task && post.ants@[a].task_history@
                == pre.ants@[a].task_history@.update(t, (t as i32, pre.current_cycle, -1i32)))
    }

    /// A fresh runner over a clone of the loaded task set, sharing nothing
    /// mutable with it, with its own clone of the colony's trail.
    pub fn new(
        utils: &Utils,
        n_ants: usize,
        pherohormones: &Pherohormones,
        evaporation_rate: u64,
        deposit_rate: u64,
        alfa: u32,
        beta: u32,
        base_chance: u64,
    ) -> (r: ManagerAnt)
        requires
            utils.graph_loaded(),
            utils.arrays_ready(),
            pherohormones.wf(),
            pherohormones.spec_n_tasks() == utils.n_tasks,
            deposit_rate >= 1,
            1 <= base_chance <= BASE_MAX,
        ensures
            r.wf(),
            r.fresh(),
            r.n_ants == n_ants,
            r.n_tasks == utils.n_tasks,
            sg_nodes(r.di_graph) == sg_nodes(utils.di_graph),
            sg_edges(r.di_graph) == sg_edges(utils.di_graph),
            r.remaining_vec@ == utils.remaining_vec@,
            r.costs_vec@ == utils.costs_vec@,
            r.visibility_vec@ == utils.visibility@,
            r.visibility_sum == utils.visibility_sum,
            r.local_pherohormones@ == pherohormones@,
            r.local_pherohormones.spec_pheromones_sum() == pherohormones.spec_pheromones_sum(),
            r.evaporation_rate == evaporation_rate,
            r.deposit_rate == deposit_rate,
            r.alfa == alfa,
            r.beta == beta,
            r.base_chance == base_chance,
            r.max_weight == 0,
            forall|a: int|
                0 <= a < n_ants ==> (#[trigger] r.ants@[a]).free_at == -1
                    && r.ants@[a].task_history@.len() == utils.n_tasks,
            forall|a: int, t: int|
                0 <= a < n_ants && 0 <= t < utils.n_tasks
                    ==> (#[trigger] r.ants@[a].task_history@[t]) == (0i32, 0i32, 0i32),
            forall|v: int| 0 <= v < utils.n_tasks ==> !(#[trigger] r.available_tasks@[v]),
            r.timelines_wf(),
    {
        let n_tasks = utils.n_tasks;
        let mut ants: Vec<WorkerAnt> = Vec::new();
        let mut a: usize = 0;
        while a < n_ants
            invariant
                n_tasks <= TASKS_MAX,
                a <= n_ants,
                ants@.len() == a,
                forall|i: int|
                    0 <= i < a ==> (#[trigger] ants@[i]).current_task == -1 && ants@[i].last_task
                        == -1 && ants@[i].free_at == -1 && ants@[i].task_history@.len()
                        == n_tasks,
                forall|i: int, t: int|
                    0 <= i < a && 0 <= t < n_tasks ==> (#[trigger] ants@[i].task_history@[t])
                        == (0i32, 0i32, 0i32),
            decreases n_ants - a,
        {
            ants.push(WorkerAnt::new(n_tasks as i32));
            a = a + 1;
        }
        let mut avail: Vec<bool> = Vec::new();
        let mut v: usize = 0;
        while v < n_tasks
            invariant
                v <= n_tasks,
                avail@.len() == v,
                forall|i: int| 0 <= i < v ==> !(#[trigger] avail@[i]),
            decreases n_tasks - v,
        {
            avail.push(false);
            v = v + 1;
        }
        ManagerAnt {
            n_ants,
            ants,
            di_graph: crate::taskgraph::clone_graph(&utils.di_graph),
            n_tasks,
            remaining_vec: crate::copy_vec(&utils.remaining_vec),
            costs_vec: crate::copy_vec(&utils.costs_vec),
            available_tasks: avail,
            visibility_vec: crate::copy_vec(&utils.visibility),
            visibility_sum: utils.visibility_sum,
            current_cycle: 0,
            local_pherohormones: pherohormones.duplicate(),
            evaporation_rate,
            deposit_rate,
            alfa,
            beta,
            base_chance,
            max_weight: 0,
        }
    }

    /// Marks every task with no unresolved dependencies as available. Run
    /// once, before the first cycle.
    #[verifier::loop_isolation(false)]
    pub fn init_available_tasks(&mut self)
        requires
            old(self).wf(),
            old(self).fresh(),
        ensures
            final(self).wf(),
            final(self).fresh(),
            *final(self) == (ManagerAnt {
                available_tasks: final(self).available_tasks,
                ..*old(self)
            }),
            final(self).available_tasks@.len() == old(self).n_tasks,
            forall|v: int|
                0 <= v < old(self).n_tasks ==> #[trigger] final(self).available_tasks@[v] == (
                old(self).remaining_vec@[v] == 0),
    {
        let n = self.n_tasks;
        let mut avail: Vec<bool> = Vec::new();
        let mut i: usize = 0;
        while i < n
            invariant
                self == old(self),
                n == self.n_tasks,
                i <= n,
                avail@.len() == i,
                forall|v: int|
                    0 <= v < i ==> #[trigger] avail@[v] == (self.remaining_vec@[v] == 0),
            decreases n - i,
        {
            if self.remaining_vec[i] == 0 {
                avail.push(true);
            } else {
                avail.push(false);
            }
            i = i + 1;
        }
        self.available_tasks = avail;
        proof {
            vstd::set_lib::lemma_int_range(0, n as int);
        }
    }

    /// Completes `task`: removes it (and all its edges) from the precedence
    /// graph, decrements each successor's dependency count, and marks every
    /// successor that reaches zero as available. A `task` of `-1` is a no-op.
    #[verifier::loop_isolation(false)]
    pub fn reduce_and_destroy(&mut self, task: i32)
        requires
            old(self).wf(),
            task >= 0 ==> task < old(self).n_tasks && sg_nodes(old(self).di_graph).contains(
                task as int,
            ) && old(self).remaining_vec@[task as int] == 0 && !old(self).available_tasks@[
                task as int
            ],
            task >= 0 ==> forall|a: int|
                0 <= a < old(self).n_ants ==> (#[trigger] old(self).ants@[a]).current_task
                    != task,
        ensures
            task < 0 ==> *final(self) == *old(self),
            task >= 0 ==> sg_nodes(final(self).di_graph) =~= sg_nodes(
                old(self).di_graph,
            ).remove(task as int),
            task >= 0 ==> sg_edges(final(self).di_graph) =~= edges_without(
                sg_edges(old(self).di_graph),
                task as int,
            ),
            task >= 0 ==> forall|v: int|
                0 <= v < old(self).n_tasks ==> #[trigger] final(self).remaining_vec@[v] == (
                if sg_edges(old(self).di_graph).count((task as int, v)) >= 1 {
                    old(self).remaining_vec@[v] - 1
                } else {
                    old(self).remaining_vec@[v] as int
                }),
            task >= 0 ==> forall|v: int|
                0 <= v < old(self).n_tasks ==> #[trigger] final(self).available_tasks@[v] == (
                old(self).available_tasks@[v] || (sg_edges(old(self).di_graph).count(
                    (task as int, v),
                ) >= 1 && final(self).remaining_vec@[v] == 0)),
            final(self).wf(),
            *final(self) == (ManagerAnt {
                di_graph: final(self).di_graph,
                remaining_vec: final(self).remaining_vec,
                available_tasks: final(self).available_tasks,
                ..*old(self)
            }),
            task >= 0 ==> sg_nodes(final(self).di_graph).len() == sg_nodes(
                old(self).di_graph,
            ).len() - 1,
    {
        if task < 0 {
            return ;
        }
        let t = task as usize;
        let ghost g0 = self.di_graph;
        let ghost n = self.n_tasks as int;
        let neighbors = out_neighbors(&self.di_graph, t);
        proof {
            assert forall|i: int| 0 <= i < neighbors@.len() implies 0 <= #[trigger] neighbors@[i]
                < n && neighbors@[i] as int != t as int by {
                assert(sg_edges(g0).count((t as int, neighbors@[i] as int)) >= 1);
                assert(sg_nodes(g0).contains(neighbors@[i] as int));
                // A self-loop would make `task` its own unresolved
                // dependency, contradicting its zero count.
                if neighbors@[i] as int == t as int {
                    assert(pred_set(g0, t as int).contains(t as int));
                    crate::taskgraph::lemma_pred_set_finite(g0, t as int, n);
                    vstd::set::axiom_set_remove_len(pred_set(g0, t as int), t as int);
                }
            }
        }
        let m = neighbors.len();
        let mut i: usize = 0;
        while i < m
            invariant
                m == neighbors@.len(),
                i <= m,
                self.di_graph == g0,
                self.remaining_vec@.len() == old(self).remaining_vec@.len(),
                self.available_tasks@.len() == old(self).available_tasks@.len(),
                *self == (ManagerAnt {
                    remaining_vec: self.remaining_vec,
                    available_tasks: self.available_tasks,
                    ..*old(self)
                }),
                forall|v: int|
                    0 <= v < n ==> #[trigger] self.remaining_vec@[v] == (
                    if neighbors@.take(i as int).contains(v as usize) {
                        old(self).remaining_vec@[v] - 1
                    } else {
                        old(self).remaining_vec@[v] as int
                    }),
                forall|v: int|
                    0 <= v < n ==> #[trigger] self.available_tasks@[v] == (old(
                        self,
                    ).available_tasks@[v] || (neighbors@.take(i as int).contains(v as usize)
                        && self.remaining_vec@[v] == 0)),
            decreases m - i,
        {
            let nb = neighbors[i];
            proof {
                assert(sg_edges(g0).count((t as int, nb as int)) >= 1);
                assert(pred_set(g0, nb as int).contains(t as int));
                crate::taskgraph::lemma_pred_set_finite(g0, nb as int, n);
                vstd::set::axiom_set_remove_len(pred_set(g0, nb as int), t as int);
                assert(sg_nodes(g0).contains(nb as int));
                assert(self.remaining_vec@[nb as int] == old(self).remaining_vec@[nb as int])
                    by {
                    assert(!neighbors@.take(i as int).contains(nb)) by {
                        if neighbors@.take(i as int).contains(nb) {
                            let j = choose|j: int|
                                0 <= j < i && #[trigger] neighbors@.take(i as int)[j] == nb;
                            assert(neighbors@[j] == neighbors@[i as int]);
                        }
                    }
                }
                assert(old(self).remaining_vec@[nb as int] >= 1);
            }
            let r = self.remaining_vec[nb];
            self.remaining_vec.set(nb, r - 1);
            if r - 1 == 0 {
                self.available_tasks.set(nb, true);
            }
            proof {
                assert forall|p: usize|
                    neighbors@.take(i as int + 1).contains(p) <==> (neighbors@.take(
                    i as int,
                ).contains(p) || p == nb) by {
                    assert(neighbors@.take(i as int + 1) =~= neighbors@.take(i as int).push(nb));
                    if neighbors@.take(i as int).contains(p) {
                        let j = choose|j: int|
                            0 <= j < i && #[trigger] neighbors@.take(i as int)[j] == p;
                        assert(neighbors@.take(i as int + 1)[j] == p);
                    }
                    if p == nb {
                        assert(neighbors@.take(i as int + 1)[i as int] == p);
                    }
                }
            }
            i = i + 1;
        }
        proof {
            assert(neighbors@.take(m as int) =~= neighbors@);
        }
        remove_task(&mut self.di_graph, t);
        proof {
            let g1 = self.di_graph;
            vstd::set::axiom_set_remove_len(sg_nodes(g0), t as int);
            // Dependency counters match the shrunken graph.
            assert forall|v: int| sg_nodes(g1).contains(v) implies 0 <= v
                < self.remaining_vec@.len() && #[trigger] self.remaining_vec@[v] == pred_set(
                g1,
                v,
            ).len() by {
                assert(sg_nodes(g0).contains(v));
                crate::taskgraph::lemma_pred_of_without(sg_edges(g0), t as int, v);
                crate::taskgraph::lemma_pred_set_finite(g0, v, n);
                vstd::set::axiom_set_remove_len(pred_set(g0, v), t as int);
                assert(v != t as int);
                assert(pred_set(g1, v) =~= pred_set(g0, v).remove(t as int));
                if sg_edges(g0).count((t as int, v)) >= 1 {
                    assert(pred_set(g0, v).contains(t as int));
                    assert(neighbors@.contains(v as usize));
                } else {
                    assert(!pred_set(g0, v).contains(t as int));
                    assert(!neighbors@.contains(v as usize)) by {
                        if neighbors@.contains(v as usize) {
                            let j = choose|j: int|
                                0 <= j < neighbors@.len() && #[trigger] neighbors@[j] == (
                                v as usize);
                            assert(sg_edges(g0).count((t as int, v)) >= 1);
                        }
                    }
                }
            }
            // Availability still implies liveness, a zero counter, and no
            // holder.
            assert forall|v: int|
                0 <= v < self.n_tasks && #[trigger] self.available_tasks@[v] implies sg_nodes(
                g1,
            ).contains(v) && self.remaining_vec@[v] == 0 && (forall|a: int|
                0 <= a < self.n_ants ==> (#[trigger] self.ants@[a]).current_task != v) by {
                if old(self).available_tasks@[v] {
                    assert(sg_nodes(g0).contains(v));
                    assert(old(self).remaining_vec@[v] == 0);
                    assert(sg_edges(g0).count((t as int, v)) == 0) by {
                        if sg_edges(g0).count((t as int, v)) >= 1 {
                            assert(pred_set(g0, v).contains(t as int));
                            crate::taskgraph::lemma_pred_set_finite(g0, v, n);
                            vstd::set::axiom_set_remove_len(pred_set(g0, v), t as int);
                        }
                    }
                    assert(v != t as int);
                } else {
                    assert(sg_edges(g0).count((t as int, v)) >= 1 && self.remaining_vec@[v]
                        == 0);
                    assert(sg_nodes(g0).contains(v));
                    if v == t as int {
                        assert(pred_set(g0, t as int).contains(t as int));
                        crate::taskgraph::lemma_pred_set_finite(g0, t as int, n);
                        vstd::set::axiom_set_remove_len(pred_set(g0, t as int), t as int);
                    }
                    assert(v != t as int);
                    assert(old(self).remaining_vec@[v] == 1);
                    assert forall|a: int| 0 <= a < self.n_ants implies (
                    #[trigger] self.ants@[a]).current_task != v by {
                        if self.ants@[a].current_task == v {
                            assert(old(self).remaining_vec@[v] == 0);
                        }
                    }
                }
            }
            // Running ants still hold live, claimed tasks.
            assert forall|a: int|
                0 <= a < self.n_ants && (#[trigger] self.ants@[a]).current_task != -1 implies 0
                <= self.ants@[a].current_task < self.n_tasks && sg_nodes(g1).contains(
                self.ants@[a].current_task as int,
            ) && self.remaining_vec@[self.ants@[a].current_task as int] == 0
                && !self.available_tasks@[self.ants@[a].current_task as int] by {
                let c = self.ants@[a].current_task as int;
                assert(c != t as int);
                assert(sg_edges(g0).count((t as int, c)) == 0) by {
                    if sg_edges(g0).count((t as int, c)) >= 1 {
                        assert(pred_set(g0, c).contains(t as int));
                        crate::taskgraph::lemma_pred_set_finite(g0, c, n);
                        vstd::set::axiom_set_remove_len(pred_set(g0, c), t as int);
                    }
                }
            }
        }
    }
}

impl ManagerAnt {
    /// The completion phase of one cycle: exactly the ants whose task has
    /// run to its end (busy, with `free_at` reached) complete it — the task
    /// leaves the graph with all its edges, each successor's dependency
    /// count drops, a successor reaching zero becomes available, the ant's
    /// timeline interval closes at the current cycle, and the ant goes idle
    /// with the task recorded as its last. Every other ant, and everything a
    /// completion does not touch, stands still.
    #[verifier::loop_isolation(false)]
    pub fn check_tasks_completion(&mut self)
        requires
            old(self).wf(),
        ensures
            final(self).wf(),
            final(self).current_cycle == old(self).current_cycle,
            final(self).n_tasks == old(self).n_tasks,
            final(self).n_ants == old(self).n_ants,
            final(self).costs_vec@ == old(self).costs_vec@,
            final(self).visibility_vec@ == old(self).visibility_vec@,
            final(self).visibility_sum == old(self).visibility_sum,
            final(self).local_pherohormones == old(self).local_pherohormones,
            final(self).deposit_rate == old(self).deposit_rate,
            final(self).evaporation_rate == old(self).evaporation_rate,
            final(self).alfa == old(self).alfa,
            final(self).beta == old(self).beta,
            final(self).base_chance == old(self).base_chance,
            final(self).max_weight == old(self).max_weight,
            forall|a: int|
                0 <= a < old(self).n_ants && old(self).ant_due(a)
                    ==> crate::worker_ant::ant_completed(
                    old(self).ants@[a],
                    #[trigger] final(self).ants@[a],
                    old(self).current_cycle,
                ),
            forall|a: int|
                0 <= a < old(self).n_ants && !old(self).ant_due(a)
                    ==> #[trigger] final(self).ants@[a] == old(self).ants@[a],
            sg_nodes(final(self).di_graph) =~= sg_nodes(old(self).di_graph).difference(
                old(self).completed_tasks(old(self).n_ants as int),
            ),
            sg_edges(final(self).di_graph) =~= edges_outside(
                sg_edges(old(self).di_graph),
                old(self).completed_tasks(old(self).n_ants as int),
            ),
            forall|v: int|
                0 <= v < old(self).n_tasks ==> #[trigger] final(self).remaining_vec@[v]
                    <= old(self).remaining_vec@[v],
            forall|v: int|
                0 <= v < old(self).n_tasks ==> #[trigger] final(self).available_tasks@[v] == (
                old(self).available_tasks@[v] || (final(self).remaining_vec@[v] == 0 && old(
                    self,
                ).remaining_vec@[v] >= 1)),
            sg_nodes(final(self).di_graph).len() <= sg_nodes(old(self).di_graph).len(),
    {
        let n_ants = self.n_ants;
        let ghost pre = *old(self);
        let mut i: usize = 0;
        while i < n_ants
            invariant
                self.wf(),
                n_ants == self.n_ants,
                i <= n_ants,
                self.current_cycle == pre.current_cycle,
                self.n_tasks == pre.n_tasks,
                self.n_ants == pre.n_ants,
                self.costs_vec@ == pre.costs_vec@,
                self.visibility_vec@ == pre.visibility_vec@,
                self.visibility_sum == pre.visibility_sum,
                self.local_pherohormones == pre.local_pherohormones,
                self.deposit_rate == pre.deposit_rate,
                self.evaporation_rate == pre.evaporation_rate,
                self.alfa == pre.alfa,
                self.beta == pre.beta,
                self.base_chance == pre.base_chance,
                self.max_weight == pre.max_weight,
                forall|a: int|
                    i as int <= a < pre.n_ants ==> #[trigger] self.ants@[a] == pre.ants@[a],
                forall|a: int|
                    0 <= a < i && pre.ant_due(a) ==> crate::worker_ant::ant_completed(
                        pre.ants@[a],
                        #[trigger] self.ants@[a],
                        pre.current_cycle,
                    ),
                forall|a: int|
                    0 <= a < i && !pre.ant_due(a) ==> #[trigger] self.ants@[a] == pre.ants@[a],
                sg_nodes(self.di_graph) =~= sg_nodes(pre.di_graph).difference(
                    pre.completed_tasks(i as int),
                ),
                sg_edges(self.di_graph) =~= edges_outside(
                    sg_edges(pre.di_graph),
                    pre.completed_tasks(i as int),
                ),
                forall|v: int|
                    0 <= v < pre.n_tasks ==> #[trigger] self.remaining_vec@[v]
                        <= pre.remaining_vec@[v],
                forall|v: int|
                    0 <= v < pre.n_tasks ==> #[trigger] self.available_tasks@[v] == (
                    pre.available_tasks@[v] || (self.remaining_vec@[v] == 0
                        && pre.remaining_vec@[v] >= 1)),
                sg_nodes(self.di_graph).len() <= sg_nodes(pre.di_graph).len(),
                sg_nodes(self.di_graph).finite(),
            decreases n_ants - i,
        {
            broadcast use vstd::multiset::group_multiset_axioms;

            let free_at = self.ants[i].free_at;
            let current = self.ants[i].current_task;
            let ghost due = pre.ant_due(i as int);
            proof {
                assert(due == (free_at <= self.current_cycle && current != -1));
            }
            if free_at <= self.current_cycle && current != -1 {
                let finished_task = current;
                let ghost cur0 = *self;
                let ghost ants0 = self.ants@;
                let mut ant = self.ants.remove(i);
                ant.complete_task(finished_task, self.current_cycle);
                self.ants.insert(i, ant);
                proof {
                    assert(self.ants@ =~= ants0.update(i as int, ant));
                    assert forall|a: int|
                        0 <= a < self.n_ants && a != i as int implies #[trigger] self.ants@[a]
                        == ants0[a] by {}
                    assert(crate::worker_ant::ant_completed(
                        pre.ants@[i as int],
                        self.ants@[i as int],
                        pre.current_cycle,
                    ));
                    assert(self.wf());
                }
                let ghost g1 = self.di_graph;
                self.reduce_and_destroy(finished_task);
                proof {
                    let ct = finished_task as int;
                    vstd::set::axiom_set_remove_len(sg_nodes(g1), ct);
                    // Completing this ant adds its task to the completed set.
                    assert(pre.completed_tasks(i as int + 1) =~= pre.completed_tasks(
                        i as int,
                    ).insert(ct)) by {
                        assert forall|v: int|
                            pre.completed_tasks(i as int + 1).contains(v) implies
                            pre.completed_tasks(i as int).insert(ct).contains(v) by {
                            let a = choose|a: int|
                                0 <= a < i + 1 && pre.ant_due(a) && (
                                #[trigger] pre.ants@[a]).current_task == v;
                            if a < i {
                                assert(pre.completed_tasks(i as int).contains(v));
                            }
                        }
                        assert forall|v: int|
                            pre.completed_tasks(i as int).insert(ct).contains(v) implies
                            pre.completed_tasks(i as int + 1).contains(v) by {
                            if pre.completed_tasks(i as int).contains(v) {
                                let a = choose|a: int|
                                    0 <= a < i && pre.ant_due(a) && (
                                    #[trigger] pre.ants@[a]).current_task == v;
                                assert(0 <= a < i + 1 && pre.ant_due(a)
                                    && pre.ants@[a].current_task == v);
                            } else {
                                assert(pre.ant_due(i as int) && pre.ants@[i as int].current_task
                                    == ct);
                            }
                        }
                    }
                    // Node and edge views against the phase-entry state.
                    assert(sg_nodes(self.di_graph) =~= sg_nodes(pre.di_graph).difference(
                        pre.completed_tasks(i as int + 1),
                    ));
                    assert(sg_edges(self.di_graph) =~= edges_outside(
                        sg_edges(pre.di_graph),
                        pre.completed_tasks(i as int + 1),
                    )) by {
                        assert forall|e: (int, int)|
                            sg_edges(self.di_graph).count(e) == edges_outside(
                                sg_edges(pre.di_graph),
                                pre.completed_tasks(i as int + 1),
                            ).count(e) by {
                            assert(e == (e.0, e.1));
                            assert(sg_edges(self.di_graph).count((e.0, e.1)) == edges_outside(
                                sg_edges(pre.di_graph),
                                pre.completed_tasks(i as int + 1),
                            ).count((e.0, e.1)));
                        }
                    }
                    // Availability against the phase-entry state.
                    assert forall|v: int| 0 <= v < pre.n_tasks implies
                        #[trigger] self.available_tasks@[v] == (pre.available_tasks@[v] || (
                        self.remaining_vec@[v] == 0 && pre.remaining_vec@[v] >= 1)) by {
                        if sg_edges(g1).count((ct, v)) >= 1 {
                            assert(pred_of(sg_edges(g1), v).contains(ct));
                            crate::taskgraph::lemma_pred_set_finite(g1, v, pre.n_tasks as int);
                            vstd::set::axiom_set_remove_len(pred_set(g1, v), ct);
                            assert(sg_nodes(g1).contains(v));
                            assert(cur0.remaining_vec@[v] >= 1);
                        }
                    }
                }
            }
            proof {
                if !due {
                    assert(pre.completed_tasks(i as int + 1) =~= pre.completed_tasks(i as int))
                        by {
                        assert forall|v: int|
                            pre.completed_tasks(i as int + 1).contains(v) implies
                            pre.completed_tasks(i as int).contains(v) by {
                            let a = choose|a: int|
                                0 <= a < i + 1 && pre.ant_due(a) && (
                                #[trigger] pre.ants@[a]).current_task == v;
                            assert(a < i);
                        }
                        assert forall|v: int|
                            pre.completed_tasks(i as int).contains(v) implies
                            pre.completed_tasks(i as int + 1).contains(v) by {
                            let a = choose|a: int|
                                0 <= a < i && pre.ant_due(a) && (
                                #[trigger] pre.ants@[a]).current_task == v;
                            assert(0 <= a < i + 1);
                        }
                    }
                }
            }
            i = i + 1;
        }
    }

    /// The assignment phase of one cycle: every idle ant attempts one
    /// weighted random pick from the currently available tasks, in ant-index
    /// order. Busy ants are untouched; an idle ant either stays idle (its
    /// attempt found nothing) or claims one previously available task, whose
    /// availability is gone afterwards; every claimed task is held by some
    /// ant; and if anything is still available at the end, no ant is idle —
    /// an attempt cannot fail while tasks remain.
    #[verifier::loop_isolation(false)]
    pub fn check_available_tasks(&mut self, rng: &mut rand::rngs::StdRng)
        requires
            old(self).wf(),
        ensures
            final(self).wf(),
            final(self).current_cycle == old(self).current_cycle,
            final(self).n_tasks == old(self).n_tasks,
            final(self).n_ants == old(self).n_ants,
            final(self).di_graph == old(self).di_graph,
            final(self).remaining_vec@ == old(self).remaining_vec@,
            final(self).costs_vec@ == old(self).costs_vec@,
            final(self).visibility_vec@ == old(self).visibility_vec@,
            final(self).visibility_sum == old(self).visibility_sum,
            final(self).deposit_rate == old(self).deposit_rate,
            final(self).evaporation_rate == old(self).evaporation_rate,
            final(self).alfa == old(self).alfa,
            final(self).beta == old(self).beta,
            final(self).base_chance == old(self).base_chance,
            final(self).max_weight >= old(self).max_weight,
            final(self).local_pherohormones.spec_pheromones_sum() == old(
                self,
            ).local_pherohormones.spec_pheromones_sum(),
            forall|v: int|
                0 <= v < old(self).n_tasks && #[trigger] final(self).available_tasks@[v]
                    ==> old(self).available_tasks@[v],
            forall|a: int|
                0 <= a < old(self).n_ants && old(self).ants@[a].current_task != -1
                    ==> #[trigger] final(self).ants@[a] == old(self).ants@[a],
            forall|a: int|
                0 <= a < old(self).n_ants && old(self).ants@[a].current_task == -1
                    ==> Self::idle_kept_or_assigned(*old(self), *final(self), a),
            forall|v: int|
                0 <= v < old(self).n_tasks && old(self).available_tasks@[v]
                    && !(#[trigger] final(self).available_tasks@[v]) ==> exists|a: int|
                    0 <= a < old(self).n_ants && #[trigger] final(self).ants@[a].current_task
                        == (v as i32),
            forall|a: int, v: int|
                0 <= a < old(self).n_ants && old(self).ants@[a].current_task == -1
                    && #[trigger] final(self).ants@[a] == old(self).ants@[a] && 0 <= v < old(
                    self,
                ).n_tasks && #[trigger] old(self).available_tasks@[v] ==> exists|c: int|
                    0 <= c < a && final(self).ants@[c].current_task == (v as i32),
            (exists|v: int|
                0 <= v < old(self).n_tasks && #[trigger] final(self).available_tasks@[v])
                ==> forall|a: int|
                0 <= a < old(self).n_ants ==> #[trigger] final(self).ants@[a].current_task
                    != -1,
    {
        let n_ants = self.n_ants;
        let ghost pre = *old(self);
        let mut i: usize = 0;
        while i < n_ants
            invariant
                self.wf(),
                n_ants == self.n_ants,
                i <= n_ants,
                self.current_cycle == pre.current_cycle,
                self.n_tasks == pre.n_tasks,
                self.n_ants == pre.n_ants,
                self.di_graph == pre.di_graph,
                self.remaining_vec@ == pre.remaining_vec@,
                self.costs_vec@ == pre.costs_vec@,
                self.visibility_vec@ == pre.visibility_vec@,
                self.visibility_sum == pre.visibility_sum,
                self.deposit_rate == pre.deposit_rate,
                self.evaporation_rate == pre.evaporation_rate,
                self.alfa == pre.alfa,
                self.beta == pre.beta,
                self.base_chance == pre.base_chance,
                self.max_weight >= pre.max_weight,
                self.local_pherohormones.spec_pheromones_sum()
                    == pre.local_pherohormones.spec_pheromones_sum(),
                forall|v: int|
                    0 <= v < pre.n_tasks && #[trigger] self.available_tasks@[v]
                        ==> pre.available_tasks@[v],
                forall|a: int|
                    i as int <= a < pre.n_ants ==> #[trigger] self.ants@[a] == pre.ants@[a],
                forall|a: int|
                    0 <= a < pre.n_ants && pre.ants@[a].current_task != -1
                        ==> #[trigger] self.ants@[a] == pre.ants@[a],
                forall|a: int|
                    0 <= a < i && pre.ants@[a].current_task == -1 ==> #[trigger] Self::idle_kept_or_assigned(
                        pre,
                        *self,
                        a,
                    ),
                forall|v: int|
                    0 <= v < pre.n_tasks && pre.available_tasks@[v]
                        && !self.available_tasks@[v] ==> exists|a: int|
                        0 <= a < i && #[trigger] self.ants@[a].current_task == (v as i32),
                forall|a: int, v: int|
                    0 <= a < i && pre.ants@[a].current_task == -1 && #[trigger] self.ants@[a]
                        == pre.ants@[a] && 0 <= v < pre.n_tasks
                        && #[trigger] pre.available_tasks@[v] ==> exists|c: int|
                        0 <= c < a && self.ants@[c].current_task == (v as i32),
                (exists|v: int|
                    0 <= v < pre.n_tasks && #[trigger] self.available_tasks@[v]) ==> forall|
                    a: int,
                |
                    0 <= a < i ==> #[trigger] self.ants@[a].current_task != -1,
            decreases n_ants - i,
        {
            let ghost mid = *self;
            if self.ants[i].current_task == -1 {
                self.choose_task_randomly_weighted(i, rng);
                proof {
                    lemma_assignment_step(pre, mid, *self, i as int);
                }
            }
            i = i + 1;
            proof {
                assert forall|a: int|
                    0 <= a < i && pre.ants@[a].current_task == -1 implies #[trigger] Self::idle_kept_or_assigned(
                    pre,
                    *self,
                    a,
                ) by {
                    if a < i - 1 {
                        assert(Self::idle_kept_or_assigned(pre, mid, a));
                        if !(self.ants@[a] == pre.ants@[a]) {
                            assert(mid.ants@[a] == self.ants@[a]);
                            let tt = choose|t: int|
                                0 <= t < pre.n_tasks && pre.available_tasks@[t]
                                    && !mid.available_tasks@[t] && mid.ants@[a].current_task == (
                                t as i32) && mid.ants@[a].free_at == pre.current_cycle
                                    + pre.costs_vec@[t] && mid.ants@[a].last_task
                                    == pre.ants@[a].last_task && mid.ants@[a].task_history@
                                    == pre.ants@[a].task_history@.update(
                                    t,
                                    (t as i32, pre.current_cycle, -1i32),
                                );
                            assert(!self.available_tasks@[tt]);
                            assert(Self::idle_kept_or_assigned(pre, *self, a));
                        }
                    }
                }
                assert forall|v: int|
                    0 <= v < pre.n_tasks && pre.available_tasks@[v]
                        && !self.available_tasks@[v] implies exists|a: int|
                    0 <= a < i && #[trigger] self.ants@[a].current_task == (v as i32) by {
                    if mid.available_tasks@[v] {
                        // Claimed in this step: the ant just served holds it.
                        assert(self.ants@[i - 1].current_task == v as i32);
                    } else {
                        // Claimed earlier: its holder is untouched afterwards.
                        let aa = choose|a: int|
                            0 <= a < i - 1 && #[trigger] mid.ants@[a].current_task == (
                            v as i32);
                        assert(self.ants@[aa].current_task == v as i32);
                    }
                }
                // First come, first served: an ant left idle found nothing,
                // so every task on offer at phase entry had already been
                // claimed by a lower-indexed ant.
                assert forall|a: int, v: int|
                    0 <= a < i && pre.ants@[a].current_task == -1 && #[trigger] self.ants@[a]
                        == pre.ants@[a] && 0 <= v < pre.n_tasks
                        && #[trigger] pre.available_tasks@[v] implies exists|c: int|
                    0 <= c < a && self.ants@[c].current_task == (v as i32) by {
                    if a < i - 1 {
                        assert(mid.ants@[a] == pre.ants@[a]) by {
                            if mid.ants@[a] != pre.ants@[a] {
                                assert(ManagerAnt::idle_kept_or_assigned(pre, mid, a));
                                assert(mid.ants@[a].current_task != -1) by {
                                    if mid.ants@[a].current_task == -1 {
                                        assert(mid.ants@[a] == pre.ants@[a]);
                                    }
                                }
                                assert(self.ants@[a] == mid.ants@[a]);
                            }
                        }
                        let cc = choose|c: int|
                            0 <= c < a && #[trigger] mid.ants@[c].current_task == (v as i32);
                        assert(self.ants@[cc].current_task == (v as i32));
                    } else {
                        // The ant just served stayed idle: its attempt saw an
                        // empty candidate set, so nothing was available at
                        // its turn and the earlier claims cover `v`.
                        assert(mid.no_task_available()) by {
                            if !mid.no_task_available() {
                                let t = choose|t: int|
                                    #[trigger] ManagerAnt::assigned(mid, *self, i - 1, t);
                                assert(self.ants@[i - 1].current_task == (t as i32));
                                assert(t as i32 != -1i32);
                            }
                        }
                        assert(!mid.available_tasks@[v]);
                        let cc = choose|c: int|
                            0 <= c < i - 1 && #[trigger] mid.ants@[c].current_task == (
                            v as i32);
                        assert(self.ants@[cc].current_task == (v as i32));
                        assert(cc < a);
                    }
                }
            }
        }
    }

    /// One idle ant's pick: each available task is weighted by its selection
    /// score plus the exploration floor, one is drawn by roulette wheel, the
    /// ant starts it (depositing pheromone for the transition from its last
    /// task), and the task stops being available. With nothing available the
    /// ant stays idle.
    #[verifier::loop_isolation(false)]
    pub fn choose_task_randomly_weighted(&mut self, free_ant: usize, rng: &mut rand::rngs::StdRng)
        requires
            old(self).wf(),
            free_ant < old(self).n_ants,
            old(self).ants@[free_ant as int].current_task == -1,
        ensures
            final(self).wf(),
            final(self).current_cycle == old(self).current_cycle,
            final(self).n_tasks == old(self).n_tasks,
            final(self).n_ants == old(self).n_ants,
            final(self).di_graph == old(self).di_graph,
            final(self).remaining_vec@ == old(self).remaining_vec@,
            final(self).costs_vec@ == old(self).costs_vec@,
            final(self).visibility_vec@ == old(self).visibility_vec@,
            final(self).visibility_sum == old(self).visibility_sum,
            final(self).deposit_rate == old(self).deposit_rate,
            final(self).evaporation_rate == old(self).evaporation_rate,
            final(self).alfa == old(self).alfa,
            final(self).beta == old(self).beta,
            final(self).base_chance == old(self).base_chance,
            forall|a: int|
                0 <= a < old(self).n_ants && a != free_ant as int
                    ==> #[trigger] final(self).ants@[a] == old(self).ants@[a],
            final(self).max_weight == old(self).max_weight_scan(
                old(self).ants@[free_ant as int].last_task,
                old(self).n_tasks as int,
            ),
            final(self).max_weight >= old(self).max_weight,
            final(self).local_pherohormones.spec_pheromones_sum() == old(
                self,
            ).local_pherohormones.spec_pheromones_sum(),
            forall|v: int|
                0 <= v < old(self).n_tasks && #[trigger] final(self).available_tasks@[v]
                    ==> old(self).available_tasks@[v],
            old(self).no_task_available() ==> *final(self) == *old(self),
            !old(self).no_task_available() ==> exists|t: int|
                Self::assigned(*old(self), *final(self), free_ant as int, t),
            !old(self).no_task_available() ==> exists|d: u64|
                (d as int) < total_weight(
                    old(self).weight_list(
                        old(self).ants@[free_ant as int].last_task,
                        old(self).n_tasks as int,
                    ),
                ) && final(self).ants@[free_ant as int].current_task == (old(self).candidate_list(
                    old(self).n_tasks as int,
                )[crate::selection::pick_index(
                    old(self).weight_list(
                        old(self).ants@[free_ant as int].last_task,
                        old(self).n_tasks as int,
                    ),
                    d as int,
                )] as i32),
    {
        let n = self.n_tasks;
        let mut candidate_tasks: Vec<usize> = Vec::new();
        let mut weights: Vec<u64> = Vec::new();
        let last_task = self.ants[free_ant].last_task;
        let pherohormones_sum = self.local_pherohormones.pheromones_sum();
        let mut t: usize = 0;
        while t < n
            invariant
                n == self.n_tasks,
                t <= n,
                *self == (ManagerAnt { max_weight: self.max_weight, ..*old(self) }),
                self.wf(),
                last_task == old(self).ants@[free_ant as int].last_task,
                pherohormones_sum == self.local_pherohormones.spec_pheromones_sum(),
                candidate_tasks@.len() == weights@.len(),
                candidate_tasks@.len() <= t,
                forall|k: int|
                    0 <= k < candidate_tasks@.len() ==> #[trigger] candidate_tasks@[k] < n
                        && self.available_tasks@[candidate_tasks@[k] as int],
                forall|k: int|
                    0 <= k < weights@.len() ==> 1 <= #[trigger] weights@[k] <= SCALE
                        + self.base_chance,
                forall|k: int|
                    0 <= k < weights@.len() ==> #[trigger] weights@[k] == old(self).task_score(
                        last_task,
                        candidate_tasks@[k] as int,
                    ) + self.base_chance,
                candidate_tasks@ == old(self).candidate_list(t as int),
                weights@ == old(self).weight_list(last_task, t as int),
                forall|v: int|
                    0 <= v < t && #[trigger] self.available_tasks@[v] ==> exists|k: int|
                        0 <= k < candidate_tasks@.len() && candidate_tasks@[k] as int == v,
                self.max_weight == old(self).max_weight_scan(last_task, t as int),
            decreases n - t,
        {
            if self.available_tasks[t] {
                let pheromone = if last_task != -1 {
                    self.local_pherohormones.edge_weight(last_task as usize, t)
                } else {
                    0
                };
                proof {
                    assert(pheromone == trail_weight(
                        self.local_pherohormones@,
                        last_task,
                        t as int,
                    ));
                }
                let weight = score(
                    self.visibility_vec[t],
                    pheromone,
                    self.alfa,
                    self.beta,
                    self.visibility_sum,
                    pherohormones_sum,
                );
                proof {
                    assert(weight == old(self).task_score(last_task, t as int));
                }
                if weight > self.max_weight {
                    self.max_weight = weight;
                }
                let ghost cands0 = candidate_tasks@;
                weights.push(weight + self.base_chance);
                candidate_tasks.push(t);
                proof {
                    assert(candidate_tasks@[cands0.len() as int] == t);
                    assert(forall|k: int|
                        0 <= k < cands0.len() ==> candidate_tasks@[k] == cands0[k]);
                    assert(((old(self).task_score(last_task, t as int) + old(self).base_chance)
                        as u64) == weight + self.base_chance);
                    assert(candidate_tasks@ =~= old(self).candidate_list(t as int + 1));
                    assert(weights@ =~= old(self).weight_list(last_task, t as int + 1));
                }
            }
            t = t + 1;
        }
        if candidate_tasks.len() == 0 {
            proof {
                assert(self.no_task_available() && old(self).no_task_available());
                lemma_max_weight_scan_no_avail(old(self), last_task, n as int);
                assert(self.max_weight == old(self).max_weight);
                assert(*self == *old(self));
            }
            return ;
        }
        proof {
            assert(!old(self).no_task_available()) by {
                assert(self.available_tasks@[candidate_tasks@[0] as int]);
            }
        }
        proof {
            lemma_total_weight_bound(
                weights@,
                weights@.len() as int,
                (SCALE + self.base_chance) as int,
            );
            assert(total_weight(weights@) <= weights@.len() * ((SCALE + BASE_MAX) as int))
                by (nonlinear_arith)
                requires
                    total_weight(weights@) <= weights@.len() * ((SCALE + self.base_chance) as int),
                    self.base_chance <= BASE_MAX,
                    weights@.len() >= 0,
            ;
            assert(weights@.len() <= TASKS_MAX);
            assert(weights@.len() * ((SCALE + BASE_MAX) as int) <= TASKS_MAX * ((SCALE
                + BASE_MAX) as int)) by (nonlinear_arith)
                requires
                    weights@.len() <= TASKS_MAX,
            ;
            lemma_prefix_weight_step(weights@, 0);
            lemma_prefix_weight_mono(weights@, 1, weights@.len() as int);
        }
        let total = sum_of_weights(&weights);
        let draw = rng_below(rng, total);
        let idx = select_weighted(&weights, draw);
        let chosen_task = candidate_tasks[idx];
        self.available_tasks.set(chosen_task, false);
        let free_at = self.current_cycle + self.costs_vec[chosen_task];
        let ghost ants0 = self.ants@;
        let mut ant = self.ants.remove(free_ant);
        ant.start_task(
            last_task,
            chosen_task as i32,
            free_at,
            &mut self.local_pherohormones,
            self.deposit_rate,
            self.current_cycle,
        );
        self.ants.insert(free_ant, ant);
        proof {
            assert(self.ants@ =~= ants0.update(free_ant as int, ant));
            assert forall|a: int|
                0 <= a < self.n_ants && a != free_ant as int implies #[trigger] self.ants@[a]
                == ants0[a] by {}
            let c = chosen_task as int;
            assert(old(self).available_tasks@[c]);
            assert forall|v: int|
                0 <= v < self.n_tasks && #[trigger] self.available_tasks@[v] implies sg_nodes(
                self.di_graph,
            ).contains(v) && self.remaining_vec@[v] == 0 && (forall|a: int|
                0 <= a < self.n_ants ==> (#[trigger] self.ants@[a]).current_task != v) by {
                assert(old(self).available_tasks@[v] && v != c);
            }
            assert(self.wf());
            assert(self.available_tasks@ =~= old(self).available_tasks@.update(c, false));
            assert(self.ants@[free_ant as int] == ant);
            assert(Self::assigned(*old(self), *self, free_ant as int, c));
            lemma_max_weight_scan_ge(old(self), last_task, self.n_tasks as int);
            // The pick really came from the roulette: the draw fell in the
            // chosen candidate's segment of the exact weight list.
            let ghost gws = old(self).weight_list(last_task, self.n_tasks as int);
            assert(weights@ == gws);
            assert((draw as int) < total_weight(gws));
            assert(self.ants@[free_ant as int].current_task == (old(self).candidate_list(
                self.n_tasks as int,
            )[crate::selection::pick_index(gws, draw as int)] as i32));
        }
    }

    /// The cycle the runner is at.
    pub fn current_c(&self) -> (r: i32)
        ensures
            r == self.current_cycle,
    {
        self.current_cycle
    }

    /// Whether ant `a` holds a finished (closed) record for task `t`: a
    /// nonblank entry whose end cycle is set.
    pub open spec fn closed_record(&self, a: int, t: int) -> bool {
        self.ants@[a].task_history@[t] != (0i32, 0i32, 0i32)
            && self.ants@[a].task_history@[t].2 != -1
    }

    /// The recorded timelines are sound, at every phase boundary of a run:
    /// a live task not in an ant's hands is blank everywhere; a held task's
    /// holder carries the open interval that started `cost` cycles before
    /// its release time; a completed task's record is a real interval ending
    /// by the clock, exactly `cost` long when the cost is positive, and held
    /// by exactly one ant when the cost is positive; and one ant's closed
    /// intervals are pairwise
    /// — an ant runs one task at a time.
    pub open spec fn timelines_wf(&self) -> bool {
        &&& forall|a: int, t: int|
            0 <= a < self.n_ants && 0 <= t < self.n_tasks && sg_nodes(self.di_graph).contains(t)
                && self.ants@[a].current_task != (t as i32)
                ==> (#[trigger] self.ants@[a].task_history@[t]) == (0i32, 0i32, 0i32)
        &&& forall|a: int|
            0 <= a < self.n_ants && (#[trigger] self.ants@[a]).current_task != -1 ==> {
                let t = self.ants@[a].current_task as int;
                let c = self.costs_vec@[t];
                &&& self.ants@[a].free_at >= c
                &&& self.ants@[a].free_at - c <= self.current_cycle
                &&& (c >= 1 ==> self.ants@[a].free_at >= self.current_cycle)
                &&& self.ants@[a].task_history@[t] == (
                    self.ants@[a].current_task,
                    (self.ants@[a].free_at - c) as i32,
                    -1i32,
                )
            }
        &&& forall|a: int, t: int|
            0 <= a < self.n_ants && 0 <= t < self.n_tasks && !sg_nodes(
                self.di_graph,
            ).contains(t) && (#[trigger] self.ants@[a].task_history@[t]) != (0i32, 0i32, 0i32)
                ==> {
                let rec = self.ants@[a].task_history@[t];
                &&& rec.0 == t as i32
                &&& 0 <= rec.1 <= rec.2
                &&& rec.2 <= self.current_cycle
                &&& (self.costs_vec@[t] >= 1 ==> rec.2 == rec.1 + self.costs_vec@[t])
            }
        &&& forall|a: int, b: int, t: int|
            0 <= a < self.n_ants && 0 <= b < self.n_ants && a != b && 0 <= t < self.n_tasks
                && !sg_nodes(self.di_graph).contains(t) && (
            #[trigger] self.ants@[a].task_history@[t]) != (0i32, 0i32, 0i32) ==> (
            #[trigger] self.ants@[b].task_history@[t]) == (0i32, 0i32, 0i32)
        &&& forall|t: int|
            0 <= t < self.n_tasks && !sg_nodes(self.di_graph).contains(t)
                && #[trigger] self.costs_vec@[t] >= 1 ==> exists|a: int|
                0 <= a < self.n_ants && (#[trigger] self.ants@[a].task_history@[t]) != (
                0i32,
                0i32,
                0i32,
                )
        &&& forall|a: int, t: int, u: int|
            0 <= a < self.n_ants && 0 <= t < self.n_tasks && 0 <= u < self.n_tasks && t != u
                && #[trigger] self.closed_record(a, t) && #[trigger] self.closed_record(a, u)
                ==> self.ants@[a].task_history@[t].2 <= self.ants@[a].task_history@[u].1
                || self.ants@[a].task_history@[u].2 <= self.ants@[a].task_history@[t].1
        &&& forall|a: int, t: int|
            0 <= a < self.n_ants && (#[trigger] self.ants@[a]).current_task != -1 && 0 <= t
                < self.n_tasks && t != self.ants@[a].current_task as int
                && #[trigger] self.closed_record(a, t) ==> self.ants@[a].task_history@[t].2
                <= self.ants@[a].free_at - self.costs_vec@[self.ants@[a].current_task as int]
    }

    /// The run-level precedence invariant, relative to the initial edge set:
    /// live task pairs keep their initial dependency edges; while a
    /// dependency's source is live, every record of its dependents is blank
    /// (nothing downstream has started); and every closed record of a
    /// dependency's source ends no later than any record of the dependent
    /// starts — the produced schedule respects precedence.
    pub open spec fn precedence_wf(&self, init_edges: Multiset<(int, int)>) -> bool {
        &&& forall|u: int, v: int|
            sg_nodes(self.di_graph).contains(u) && sg_nodes(self.di_graph).contains(v)
                ==> sg_edges(self.di_graph).count((u, v)) == #[trigger] init_edges.count((u, v))
        &&& forall|u: int, v: int, a: int|
            0 <= v < self.n_tasks && 0 <= a < self.n_ants && #[trigger] init_edges.count(
                (u, v),
            ) >= 1 && sg_nodes(self.di_graph).contains(u)
                ==> (#[trigger] self.ants@[a].task_history@[v]) == (0i32, 0i32, 0i32)
        &&& forall|u: int, v: int, a: int, b: int|
            0 <= u < self.n_tasks && 0 <= v < self.n_tasks && 0 <= a < self.n_ants && 0 <= b
                < self.n_ants && #[trigger] init_edges.count((u, v)) >= 1 && (
            #[trigger] self.ants@[a].task_history@[v]) != (0i32, 0i32, 0i32) && (
            #[trigger] self.ants@[b].task_history@[u]) != (0i32, 0i32, 0i32)
                && self.ants@[b].task_history@[u].2 >= 0
                ==> self.ants@[b].task_history@[u].2 <= self.ants@[a].task_history@[v].1
    }

    /// Every live task with no unresolved dependencies is accounted for: it
    /// is either on offer (available) or in some ant's hands. While this
    /// holds, a task set with work left never deadlocks.
    pub open spec fn sources_accounted(&self) -> bool {
        forall|v: int|
            sg_nodes(self.di_graph).contains(v) && #[trigger] self.remaining_vec@[v] == 0
                ==> self.available_tasks@[v] || (exists|a: int|
                0 <= a < self.n_ants && (#[trigger] self.ants@[a]).current_task == (v as i32))
    }

    /// One complete epoch: from the intact precedence graph, alternate the
    /// completion and assignment phases cycle by cycle until every task is
    /// done. The result is the makespan: the last cycle in which anything
    /// was processed (one less than the final cycle counter). A graph that
    /// still has tasks at [`CYCLE_CAP`] — possible only for a cyclic input,
    /// or for total work beyond the cap — stops there. On an acyclic input
    /// with at least one ant the run never stalls (either every task is done
    /// or some ant is mid-task at the cap), and when the task set's total
    /// charge also fits under the cap, the epoch provably consumes the whole
    /// graph.
    #[verifier::loop_isolation(false)]
    #[verifier::rlimit(100)]
    pub fn work(&mut self, rng: &mut rand::rngs::StdRng) -> (cycles_spent: i32)
        requires
            old(self).wf(),
            old(self).fresh(),
            old(self).timelines_wf(),
        ensures
            final(self).wf(),
            cycles_spent == final(self).current_cycle - 1,
            sg_nodes(final(self).di_graph).len() == 0 || final(self).current_cycle == CYCLE_CAP,
            final(self).n_tasks == old(self).n_tasks,
            final(self).n_ants == old(self).n_ants,
            final(self).base_chance == old(self).base_chance,
            final(self).deposit_rate == old(self).deposit_rate,
            final(self).evaporation_rate == old(self).evaporation_rate,
            final(self).sources_accounted(),
            crate::taskgraph::edges_acyclic(sg_edges(old(self).di_graph)) && old(self).n_ants
                >= 1 ==> sg_nodes(final(self).di_graph).len() == 0 || (exists|a: int|
                0 <= a < final(self).n_ants && (#[trigger] final(self).ants@[a]).current_task
                    != -1),
            crate::taskgraph::edges_acyclic(sg_edges(old(self).di_graph)) && old(self).n_ants
                >= 1 && cost_budget(old(self).costs_vec@, old(self).n_tasks as int) <= CYCLE_CAP
                ==> sg_nodes(final(self).di_graph).len() == 0,
            old(self).n_tasks >= 1 ==> final(self).current_cycle >= 1 && cycles_spent >= 0,
            final(self).timelines_wf(),
            old(self).n_tasks >= 1 ==> forall|a: int, t: int|
                0 <= a < final(self).n_ants && 0 <= t < final(self).n_tasks
                    ==> (#[trigger] final(self).ants@[a].task_history@[t]).2 <= cycles_spent,
            old(self).n_tasks >= 1 && sg_nodes(final(self).di_graph).len() == 0
                ==> exists|a: int, t: int|
                0 <= a < final(self).n_ants && 0 <= t < final(self).n_tasks && (
                #[trigger] final(self).ants@[a].task_history@[t]).2 == cycles_spent && 0
                    <= final(self).ants@[a].task_history@[t].1
                    && final(self).ants@[a].task_history@[t].1
                    <= final(self).ants@[a].task_history@[t].2,
            final(self).precedence_wf(sg_edges(old(self).di_graph)),
    {
        let ghost acyclic0 = crate::taskgraph::edges_acyclic(sg_edges(self.di_graph));
        let ghost n = old(self).n_tasks as int;
        let ghost budget = cost_budget(old(self).costs_vec@, n);
        let ghost init_edges = sg_edges(old(self).di_graph);
        proof {
            // At the start nothing has run: every record of every dependent
            // is blank, so the precedence invariant holds outright.
            assert forall|u: int, v: int, a: int|
                0 <= v < self.n_tasks && 0 <= a < self.n_ants && #[trigger] init_edges.count(
                    (u, v),
                ) >= 1 && sg_nodes(self.di_graph).contains(u) implies (
            #[trigger] self.ants@[a].task_history@[v]) == (0i32, 0i32, 0i32) by {
                assert(sg_nodes(self.di_graph).contains(v)) by {
                    assert(sg_edges(self.di_graph).count((u, v)) >= 1);
                }
                assert(self.ants@[a].current_task != (v as i32));
            }
            assert forall|u: int, v: int, a: int, b: int|
                0 <= u < self.n_tasks && 0 <= v < self.n_tasks && 0 <= a < self.n_ants && 0 <= b
                    < self.n_ants && #[trigger] init_edges.count((u, v)) >= 1 && (
            #[trigger] self.ants@[a].task_history@[v]) != (0i32, 0i32, 0i32) && (
            #[trigger] self.ants@[b].task_history@[u]) != (0i32, 0i32, 0i32)
                && self.ants@[b].task_history@[u].2 >= 0 implies self.ants@[b].task_history@[
                u
            ].2 <= self.ants@[a].task_history@[v].1 by {
                assert(sg_nodes(self.di_graph).contains(v)) by {
                    assert(sg_edges(self.di_graph).count((u, v)) >= 1);
                }
                assert(self.ants@[a].current_task != (v as i32));
                assert(self.ants@[a].task_history@[v] == (0i32, 0i32, 0i32));
            }
            assert(self.precedence_wf(init_edges));
        }
        proof {
            // A fresh runner holds nothing: every task charges at most its
            // waiting cost.
            assert forall|v: int| 0 <= v < n implies #[trigger] task_term(self, v)
                <= self.costs_vec@[v] + 2 by {
                assert(!(exists|a: int|
                    0 <= a < self.n_ants && (#[trigger] self.ants@[a]).current_task == (
                    v as i32)));
            }
            lemma_phi_budget(self, n);
        }
        let ghost entry = *self;
        self.init_available_tasks();
        proof {
            assert(self.sources_accounted());
            lemma_timelines_same(&entry, self);
            lemma_precedence_same(&entry, self, init_edges);
            assert forall|v: int| 0 <= v < n implies #[trigger] task_term(self, v) <= task_term(
                &entry,
                v,
            ) by {
                lemma_task_term_same(&entry, self, v);
            }
            lemma_phi_le(&entry, self, n);
        }
        proof {
            vstd::set_lib::lemma_int_range(0, old(self).n_tasks as int);
        }
        let ghost mid0 = *self;
        self.check_available_tasks(rng);
        proof {
            lemma_assignment_keeps_accounting(mid0, *self);
            lemma_assignment_keeps_timelines(mid0, *self);
            lemma_assignment_keeps_precedence(mid0, *self, init_edges);
            if acyclic0 && self.n_ants >= 1 && sg_nodes(self.di_graph).len() > 0 {
                lemma_busy_when_tasks_remain(mid0, *self);
            }
            assert forall|v: int| 0 <= v < n implies #[trigger] task_term(self, v) <= task_term(
                &mid0,
                v,
            ) by {
                lemma_phi_assignment_pointwise(mid0, *self, v);
            }
            lemma_phi_le(&mid0, self, n);
            lemma_timeline_ends_bounded(self);
        }
        while node_count(&self.di_graph) > 0 && self.current_cycle < CYCLE_CAP
            invariant
                self.wf(),
                self.n_tasks == old(self).n_tasks,
                self.n_ants == old(self).n_ants,
                self.base_chance == old(self).base_chance,
                self.deposit_rate == old(self).deposit_rate,
                self.evaporation_rate == old(self).evaporation_rate,
                self.sources_accounted(),
                acyclic0 ==> crate::taskgraph::edges_acyclic(sg_edges(self.di_graph)),
                acyclic0 == crate::taskgraph::edges_acyclic(sg_edges(old(self).di_graph)),
                acyclic0 && self.n_ants >= 1 && sg_nodes(self.di_graph).len() > 0 ==> (exists|
                    a: int,
                |
                    0 <= a < self.n_ants && (#[trigger] self.ants@[a]).current_task != -1),
                self.costs_vec@ == old(self).costs_vec@,
                acyclic0 && old(self).n_ants >= 1 ==> self.current_cycle + phi(self, n)
                    <= budget,
                self.current_cycle == 0 ==> sg_nodes(self.di_graph).len() == old(self).n_tasks,
                self.timelines_wf(),
                forall|a: int, t: int|
                    0 <= a < self.n_ants && 0 <= t < self.n_tasks
                        ==> (#[trigger] self.ants@[a].task_history@[t]).2 <= self.current_cycle
                        - 1 || self.ants@[a].task_history@[t].2 <= 0,
                old(self).n_tasks >= 1 && sg_nodes(self.di_graph).len() == 0
                    ==> exists|a: int, t: int|
                    0 <= a < self.n_ants && 0 <= t < self.n_tasks && (
                    #[trigger] self.ants@[a].task_history@[t]).2 == self.current_cycle - 1 && 0
                        <= self.ants@[a].task_history@[t].1 <= self.ants@[a].task_history@[t].2,
                self.precedence_wf(init_edges),
            decreases CYCLE_CAP - self.current_cycle,
        {
            broadcast use vstd::multiset::group_multiset_axioms;

            let ghost before = *self;
            let ghost hyp = acyclic0 && old(self).n_ants >= 1;
            let ghost busy_w: int = if hyp {
                let a = choose|a: int|
                    0 <= a < before.n_ants && (#[trigger] before.ants@[a]).current_task != -1;
                before.ants@[a].current_task as int
            } else {
                0
            };
            let ghost busy_due: bool = hyp && exists|a: int|
                0 <= a < before.n_ants && before.ant_due(a) && (
                #[trigger] before.ants@[a]).current_task == (busy_w as i32);
            self.check_tasks_completion();
            proof {
                lemma_completion_keeps_accounting(before, *self);
                lemma_completion_keeps_timelines(before, *self);
                lemma_completion_keeps_precedence(before, *self, init_edges);
                if acyclic0 {
                    crate::taskgraph::lemma_edges_acyclic_sub(
                        sg_edges(before.di_graph),
                        sg_edges(self.di_graph),
                    );
                }
                if hyp {
                    lemma_phi_completion(before, *self);
                    if busy_due {
                        let a = choose|a: int|
                            0 <= a < before.n_ants && before.ant_due(a) && (
                            #[trigger] before.ants@[a]).current_task == (busy_w as i32);
                        assert(task_term(self, busy_w) == 0 && task_term(&before, busy_w) >= 1);
                        lemma_phi_lt(&before, self, n, busy_w);
                    } else {
                        lemma_phi_le(&before, self, n);
                    }
                }
            }
            let ghost mid = *self;
            self.check_available_tasks(rng);
            proof {
                lemma_assignment_keeps_accounting(mid, *self);
                lemma_assignment_keeps_timelines(mid, *self);
                lemma_assignment_keeps_precedence(mid, *self, init_edges);
                if acyclic0 && self.n_ants >= 1 && sg_nodes(self.di_graph).len() > 0 {
                    lemma_busy_when_tasks_remain(mid, *self);
                }
                if hyp {
                    assert forall|v: int| 0 <= v < n implies #[trigger] task_term(self, v)
                        <= task_term(&mid, v) by {
                        lemma_phi_assignment_pointwise(mid, *self, v);
                    }
                    lemma_phi_le(&mid, self, n);
                }
            }
            let ghost after = *self;
            self.current_cycle = self.current_cycle + 1;
            proof {
                // Advancing the cycle counter touches nothing the
                // accounting invariant speaks of.
                assert(after.sources_accounted());
                assert forall|v: int|
                    sg_nodes(self.di_graph).contains(v) && #[trigger] self.remaining_vec@[v]
                        == 0 implies self.available_tasks@[v] || (exists|a: int|
                    0 <= a < self.n_ants && (#[trigger] self.ants@[a]).current_task == (
                    v as i32)) by {
                    assert(sg_nodes(after.di_graph).contains(v) && after.remaining_vec@[v] == 0);
                    if !after.available_tasks@[v] {
                        let a = choose|a: int|
                            0 <= a < after.n_ants && (#[trigger] after.ants@[a]).current_task
                                == (v as i32);
                        assert(self.ants@[a].current_task == (v as i32));
                    }
                }
                if acyclic0 && self.n_ants >= 1 && sg_nodes(self.di_graph).len() > 0 {
                    let a = choose|a: int|
                        0 <= a < after.n_ants && (#[trigger] after.ants@[a]).current_task != -1;
                    assert(self.ants@[a].current_task != -1);
                }
                lemma_increment_keeps_timelines(after, *self);
                lemma_precedence_same(&after, self, init_edges);
                lemma_timeline_ends_bounded(&after);
                if old(self).n_tasks >= 1 && sg_nodes(self.di_graph).len() == 0 {
                    // The iteration that consumed the last tasks closed an
                    // interval at its cycle; that record survives the
                    // assignment phase (nothing was left to assign) and the
                    // clock tick.
                    assert(exists|v: int| sg_nodes(before.di_graph).contains(v)) by {
                        if forall|v: int| !(#[trigger] sg_nodes(before.di_graph).contains(v)) {
                            assert(sg_nodes(before.di_graph) =~= Set::<int>::empty());
                            broadcast use vstd::set::group_set_axioms;

                        }
                    }
                    let v = choose|v: int| sg_nodes(before.di_graph).contains(v);
                    assert(sg_nodes(self.di_graph) =~= Set::<int>::empty()) by {
                        sg_nodes(self.di_graph).lemma_len0_is_empty();
                    }
                    assert(self.di_graph == mid.di_graph);
                    assert(!sg_nodes(mid.di_graph).contains(v));
                    assert(before.completed_tasks(before.n_ants as int).contains(v));
                    let b = choose|b: int|
                        0 <= b < before.n_ants && before.ant_due(b) && (
                        #[trigger] before.ants@[b]).current_task == (v as i32);
                    assert(mid.ants@[b].task_history@[v] == (
                        before.ants@[b].current_task,
                        before.ants@[b].task_history@[v].1,
                        before.current_cycle,
                    ));
                    assert(before.ants@[b].task_history@[v] == (
                        before.ants@[b].current_task,
                        (before.ants@[b].free_at - before.costs_vec@[v]) as i32,
                        -1i32,
                    ));
                    assert(self.ants@[b] == mid.ants@[b]) by {
                        if self.ants@[b] != mid.ants@[b] {
                            assert(ManagerAnt::idle_kept_or_assigned(mid, after, b));
                            let tt = choose|t: int|
                                0 <= t < mid.n_tasks && mid.available_tasks@[t]
                                    && !after.available_tasks@[t] && after.ants@[b].current_task
                                    == (t as i32) && after.ants@[b].free_at == mid.current_cycle
                                    + mid.costs_vec@[t] && after.ants@[b].last_task
                                    == mid.ants@[b].last_task && after.ants@[b].task_history@
                                    == mid.ants@[b].task_history@.update(
                                    t,
                                    (t as i32, mid.current_cycle, -1i32),
                                );
                            assert(sg_nodes(mid.di_graph).contains(tt));
                        }
                    }
                    assert(0 <= b < self.n_ants && 0 <= v < self.n_tasks && (
                    #[trigger] self.ants@[b].task_history@[v]).2 == self.current_cycle - 1 && 0
                        <= self.ants@[b].task_history@[v].1
                        <= self.ants@[b].task_history@[v].2);
                }
                if hyp {
                    assert forall|v: int| 0 <= v < n implies #[trigger] task_term(self, v)
                        <= task_term(&after, v) by {
                        lemma_phi_increment_pointwise(after, *self, v);
                    }
                    if busy_due {
                        lemma_phi_le(&after, self, n);
                    } else {
                        // The undisturbed busy ant's task loses one unit of
                        // remaining time as the clock ticks.
                        let a0 = choose|a: int|
                            0 <= a < before.n_ants && (
                            #[trigger] before.ants@[a]).current_task != -1;
                        assert(!before.ant_due(a0));
                        assert(before.ants@[a0].free_at > before.current_cycle);
                        assert(mid.ants@[a0] == before.ants@[a0]);
                        assert(after.ants@[a0] == before.ants@[a0]);
                        assert(sg_nodes(after.di_graph).contains(busy_w)) by {
                            assert(sg_nodes(before.di_graph).contains(busy_w));
                            assert(!before.completed_tasks(before.n_ants as int).contains(
                                busy_w,
                            )) by {
                                if before.completed_tasks(before.n_ants as int).contains(
                                    busy_w,
                                ) {
                                    assert(exists|b: int|
                                        0 <= b < before.n_ants && before.ant_due(b) && (
                                        #[trigger] before.ants@[b]).current_task == (
                                        busy_w as i32));
                                }
                            }
                        }
                        lemma_phi_increment_pointwise(after, *self, busy_w);
                        lemma_phi_lt(&after, self, n, busy_w);
                    }
                    assert(self.current_cycle + phi(self, n) <= budget);
                }
            }
        }
        proof {
            if acyclic0 && old(self).n_ants >= 1 && budget <= CYCLE_CAP && sg_nodes(
                self.di_graph,
            ).len() > 0 {
                // The charge bound keeps the clock strictly under the cap
                // while tasks remain, so the loop can only have stopped with
                // the graph consumed.
                assert(exists|v: int| sg_nodes(self.di_graph).contains(v)) by {
                    if forall|v: int| !(#[trigger] sg_nodes(self.di_graph).contains(v)) {
                        assert(sg_nodes(self.di_graph) =~= Set::<int>::empty());
                        broadcast use vstd::set::group_set_axioms;

                    }
                }
                let v = choose|v: int| sg_nodes(self.di_graph).contains(v);
                assert forall|u: int| 0 <= u < n implies #[trigger] task_term(self, u) >= 0 by {
                    lemma_task_term_bounds(self, u);
                }
                lemma_task_term_bounds(self, v);
                lemma_phi_ge_term(self, n, v);
                assert(self.current_cycle <= budget - 1);
                assert(false);
            }
        }
        self.current_cycle - 1
    }
}

/// The nonnegative part of a difference.
pub open spec fn pos_part(x: int) -> int {
    if x >= 0 {
        x
    } else {
        0
    }
}

/// The remaining-work charge of one task: nothing once it is gone; its
/// holder's remaining busy time (plus one) while an ant runs it; its cost
/// plus two while it waits. Every live task charges at least one.
pub open spec fn task_term(s: &ManagerAnt, v: int) -> int {
    if !sg_nodes(s.di_graph).contains(v) {
        0
    } else if exists|a: int|
        0 <= a < s.n_ants && (#[trigger] s.ants@[a]).current_task == (v as i32) {
        let a = choose|a: int|
            0 <= a < s.n_ants && (#[trigger] s.ants@[a]).current_task == (v as i32);
        pos_part(s.ants@[a].free_at - s.current_cycle) + 1
    } else {
        s.costs_vec@[v] + 2
    }
}

/// The total remaining-work charge of the first `k` tasks.
pub open spec fn phi(s: &ManagerAnt, k: int) -> int
    decreases k,
{
    if k <= 0 {
        0
    } else {
        phi(s, k - 1) + task_term(s, k - 1)
    }
}

/// The largest charge a task set can start with: every task waiting.
pub open spec fn cost_budget(costs: Seq<i32>, k: int) -> int
    decreases k,
{
    if k <= 0 {
        0
    } else {
        cost_budget(costs, k - 1) + costs[k - 1] + 2
    }
}

proof fn lemma_phi_le(s1: &ManagerAnt, s2: &ManagerAnt, k: int)
    requires
        forall|v: int| 0 <= v < k ==> #[trigger] task_term(s2, v) <= task_term(s1, v),
    ensures
        phi(s2, k) <= phi(s1, k),
    decreases k,
{
    if k > 0 {
        lemma_phi_le(s1, s2, k - 1);
    }
}

proof fn lemma_phi_lt(s1: &ManagerAnt, s2: &ManagerAnt, k: int, w: int)
    requires
        forall|v: int| 0 <= v < k ==> #[trigger] task_term(s2, v) <= task_term(s1, v),
        0 <= w < k,
        task_term(s2, w) <= task_term(s1, w) - 1,
    ensures
        phi(s2, k) <= phi(s1, k) - 1,
    decreases k,
{
    if w == k - 1 {
        lemma_phi_le(s1, s2, k - 1);
    } else {
        lemma_phi_lt(s1, s2, k - 1, w);
    }
}

proof fn lemma_phi_budget(s: &ManagerAnt, k: int)
    requires
        forall|v: int| 0 <= v < k ==> #[trigger] task_term(s, v) <= s.costs_vec@[v] + 2,
    ensures
        phi(s, k) <= cost_budget(s.costs_vec@, k),
    decreases k,
{
    if k > 0 {
        lemma_phi_budget(s, k - 1);
    }
}

proof fn lemma_phi_nonneg(s: &ManagerAnt, k: int)
    requires
        forall|v: int| 0 <= v < k ==> #[trigger] task_term(s, v) >= 0,
    ensures
        phi(s, k) >= 0,
    decreases k,
{
    if k > 0 {
        lemma_phi_nonneg(s, k - 1);
    }
}

proof fn lemma_phi_ge_term(s: &ManagerAnt, k: int, w: int)
    requires
        0 <= w < k,
        forall|v: int| 0 <= v < k ==> #[trigger] task_term(s, v) >= 0,
    ensures
        phi(s, k) >= task_term(s, w),
    decreases k,
{
    if w < k - 1 {
        lemma_phi_ge_term(s, k - 1, w);
    } else {
        lemma_phi_nonneg(s, k - 1);
    }
}

/// Every task's charge is nonnegative, and a live task's charge is at least
/// one.
proof fn lemma_task_term_bounds(s: &ManagerAnt, v: int)
    requires
        s.wf(),
        0 <= v < s.n_tasks,
    ensures
        task_term(s, v) >= 0,
        sg_nodes(s.di_graph).contains(v) ==> task_term(s, v) >= 1,
{
}

/// A completion phase never raises any task's charge, and zeroes the charge
/// of every due ant's task.
proof fn lemma_phi_completion(pre: ManagerAnt, post: ManagerAnt)
    requires
        pre.wf(),
        post.wf(),
        post.n_tasks == pre.n_tasks,
        post.n_ants == pre.n_ants,
        post.current_cycle == pre.current_cycle,
        post.costs_vec@ == pre.costs_vec@,
        forall|a: int|
            0 <= a < pre.n_ants && pre.ant_due(a) ==> crate::worker_ant::ant_completed(
                pre.ants@[a],
                #[trigger] post.ants@[a],
                pre.current_cycle,
            ),
        forall|a: int|
            0 <= a < pre.n_ants && !pre.ant_due(a) ==> #[trigger] post.ants@[a] == pre.ants@[a],
        sg_nodes(post.di_graph) =~= sg_nodes(pre.di_graph).difference(
            pre.completed_tasks(pre.n_ants as int),
        ),
    ensures
        forall|v: int| 0 <= v < pre.n_tasks ==> #[trigger] task_term(&post, v) <= task_term(
            &pre,
            v,
        ),
        forall|a: int|
            0 <= a < pre.n_ants && pre.ant_due(a) ==> task_term(
                &post,
                (#[trigger] pre.ants@[a]).current_task as int,
            ) == 0 && task_term(&pre, pre.ants@[a].current_task as int) >= 1,
{
    assert forall|v: int| 0 <= v < pre.n_tasks implies #[trigger] task_term(&post, v)
        <= task_term(&pre, v) by {
        lemma_phi_completion_pointwise(pre, post, v);
    }
    assert forall|a: int| 0 <= a < pre.n_ants && pre.ant_due(a) implies task_term(
        &post,
        (#[trigger] pre.ants@[a]).current_task as int,
    ) == 0 && task_term(&pre, pre.ants@[a].current_task as int) >= 1 by {
        let v = pre.ants@[a].current_task as int;
        assert(pre.completed_tasks(pre.n_ants as int).contains(v));
        assert(!sg_nodes(post.di_graph).contains(v));
        assert(sg_nodes(pre.di_graph).contains(v));
        lemma_task_term_bounds(&pre, v);
    }
}

proof fn lemma_phi_completion_pointwise(pre: ManagerAnt, post: ManagerAnt, v: int)
    requires
        pre.wf(),
        post.wf(),
        post.n_tasks == pre.n_tasks,
        post.n_ants == pre.n_ants,
        post.current_cycle == pre.current_cycle,
        post.costs_vec@ == pre.costs_vec@,
        0 <= v < pre.n_tasks,
        forall|a: int|
            0 <= a < pre.n_ants && pre.ant_due(a) ==> crate::worker_ant::ant_completed(
                pre.ants@[a],
                #[trigger] post.ants@[a],
                pre.current_cycle,
            ),
        forall|a: int|
            0 <= a < pre.n_ants && !pre.ant_due(a) ==> #[trigger] post.ants@[a] == pre.ants@[a],
        sg_nodes(post.di_graph) =~= sg_nodes(pre.di_graph).difference(
            pre.completed_tasks(pre.n_ants as int),
        ),
    ensures
        task_term(&post, v) <= task_term(&pre, v),
{
    lemma_task_term_bounds(&pre, v);
    if sg_nodes(post.di_graph).contains(v) {
        assert(sg_nodes(pre.di_graph).contains(v));
        if exists|a: int|
            0 <= a < post.n_ants && (#[trigger] post.ants@[a]).current_task == (v as i32) {
            // The holder must have held it before and not be due.
            let a = choose|a: int|
                0 <= a < post.n_ants && (#[trigger] post.ants@[a]).current_task == (v as i32);
            assert(!pre.ant_due(a)) by {
                if pre.ant_due(a) {
                    assert(post.ants@[a].current_task == -1);
                }
            }
            assert(pre.ants@[a].current_task == (v as i32));
            let b = choose|b: int|
                0 <= b < pre.n_ants && (#[trigger] pre.ants@[b]).current_task == (v as i32);
            assert(b == a || pre.ants@[b].current_task != pre.ants@[a].current_task || b == a);
            assert(pre.ants@[b].free_at == pre.ants@[a].free_at) by {
                if b != a {
                    assert(pre.ants@[b].current_task == pre.ants@[a].current_task);
                }
            }
            let a2 = choose|a2: int|
                0 <= a2 < post.n_ants && (#[trigger] post.ants@[a2]).current_task == (v as i32);
            assert(!pre.ant_due(a2)) by {
                if pre.ant_due(a2) {
                    assert(post.ants@[a2].current_task == -1);
                }
            }
            assert(post.ants@[a2] == pre.ants@[a2]);
            assert(post.ants@[a2].free_at == pre.ants@[b].free_at) by {
                if a2 != b {
                    assert(pre.ants@[a2].current_task == pre.ants@[b].current_task);
                }
            }
        } else {
            // Unheld afterwards: it was unheld before, too (holders only let
            // go by completing, which would have removed the task).
            assert(!(exists|a: int|
                0 <= a < pre.n_ants && (#[trigger] pre.ants@[a]).current_task == (v as i32)))
                by {
                if exists|a: int|
                    0 <= a < pre.n_ants && (#[trigger] pre.ants@[a]).current_task == (
                    v as i32) {
                    let a = choose|a: int|
                        0 <= a < pre.n_ants && (#[trigger] pre.ants@[a]).current_task == (
                        v as i32);
                    if pre.ant_due(a) {
                        assert(pre.completed_tasks(pre.n_ants as int).contains(v));
                        assert(!sg_nodes(post.di_graph).contains(v));
                    } else {
                        assert(post.ants@[a].current_task == (v as i32));
                    }
                }
            }
        }
    }
}

/// Two states that agree on the graph, the ants, and the clock charge every
/// task alike.
proof fn lemma_task_term_same(s1: &ManagerAnt, s2: &ManagerAnt, v: int)
    requires
        s2.di_graph == s1.di_graph,
        s2.ants@ == s1.ants@,
        s2.n_ants == s1.n_ants,
        s2.costs_vec@ == s1.costs_vec@,
        s2.current_cycle == s1.current_cycle,
    ensures
        task_term(s2, v) == task_term(s1, v),
{
}

/// An assignment phase never raises any task's charge: a claimed task's
/// charge falls from `cost + 2` to `cost + 1`, everything else stands.
proof fn lemma_phi_assignment_pointwise(pre: ManagerAnt, post: ManagerAnt, v: int)
    requires
        pre.wf(),
        post.wf(),
        post.n_tasks == pre.n_tasks,
        post.n_ants == pre.n_ants,
        post.di_graph == pre.di_graph,
        post.costs_vec@ == pre.costs_vec@,
        post.current_cycle == pre.current_cycle,
        0 <= v < pre.n_tasks,
        forall|a: int|
            0 <= a < pre.n_ants && pre.ants@[a].current_task != -1
                ==> #[trigger] post.ants@[a] == pre.ants@[a],
        forall|a: int|
            0 <= a < pre.n_ants && pre.ants@[a].current_task == -1
                ==> #[trigger] ManagerAnt::idle_kept_or_assigned(pre, post, a),
    ensures
        task_term(&post, v) <= task_term(&pre, v),
{
    lemma_task_term_bounds(&pre, v);
    if sg_nodes(post.di_graph).contains(v) {
        if exists|a: int|
            0 <= a < post.n_ants && (#[trigger] post.ants@[a]).current_task == (v as i32) {
            let a = choose|a: int|
                0 <= a < post.n_ants && (#[trigger] post.ants@[a]).current_task == (v as i32);
            if pre.ants@[a].current_task != -1 {
                // A busy ant is untouched: it was the holder already.
                assert(pre.ants@[a].current_task == (v as i32));
                let b = choose|b: int|
                    0 <= b < pre.n_ants && (#[trigger] pre.ants@[b]).current_task == (v as i32);
                assert(pre.ants@[b].free_at == pre.ants@[a].free_at) by {
                    if b != a {
                        assert(pre.ants@[b].current_task == pre.ants@[a].current_task);
                    }
                }
                let a2 = choose|a2: int|
                    0 <= a2 < post.n_ants && (#[trigger] post.ants@[a2]).current_task == (
                    v as i32);
                assert(post.ants@[a2].free_at == post.ants@[a].free_at) by {
                    if a2 != a {
                        assert(post.ants@[a2].current_task == post.ants@[a].current_task);
                    }
                }
                assert(post.ants@[a] == pre.ants@[a]);
            } else {
                // A fresh assignment: the task was on offer (so unheld) and
                // its charge falls by one.
                assert(ManagerAnt::idle_kept_or_assigned(pre, post, a));
                let t = choose|t: int|
                    0 <= t < pre.n_tasks && pre.available_tasks@[t] && !post.available_tasks@[t]
                        && post.ants@[a].current_task == (t as i32) && post.ants@[a].free_at
                        == pre.current_cycle + pre.costs_vec@[t] && post.ants@[a].last_task
                        == pre.ants@[a].last_task && post.ants@[a].task_history@
                        == pre.ants@[a].task_history@.update(
                        t,
                        (t as i32, pre.current_cycle, -1i32),
                    );
                assert(t == v);
                assert(pre.available_tasks@[v]);
                assert(!(exists|b: int|
                    0 <= b < pre.n_ants && (#[trigger] pre.ants@[b]).current_task == (
                    v as i32))) by {
                    if exists|b: int|
                        0 <= b < pre.n_ants && (#[trigger] pre.ants@[b]).current_task == (
                        v as i32) {
                        let b = choose|b: int|
                            0 <= b < pre.n_ants && (#[trigger] pre.ants@[b]).current_task == (
                            v as i32);
                        assert(pre.ants@[b].current_task != v as i32);
                    }
                }
                let a2 = choose|a2: int|
                    0 <= a2 < post.n_ants && (#[trigger] post.ants@[a2]).current_task == (
                    v as i32);
                assert(post.ants@[a2].free_at == pre.current_cycle + pre.costs_vec@[v]) by {
                    if pre.ants@[a2].current_task != -1 {
                        assert(post.ants@[a2] == pre.ants@[a2]);
                        assert(pre.ants@[a2].current_task == (v as i32));
                    } else {
                        assert(ManagerAnt::idle_kept_or_assigned(pre, post, a2));
                        let t2 = choose|t2: int|
                            0 <= t2 < pre.n_tasks && pre.available_tasks@[t2]
                                && !post.available_tasks@[t2] && post.ants@[a2].current_task
                                == (t2 as i32) && post.ants@[a2].free_at == pre.current_cycle
                                + pre.costs_vec@[t2] && post.ants@[a2].last_task
                                == pre.ants@[a2].last_task && post.ants@[a2].task_history@
                                == pre.ants@[a2].task_history@.update(
                                t2,
                                (t2 as i32, pre.current_cycle, -1i32),
                            );
                        assert(t2 == v);
                    }
                }
                assert(task_term(&post, v) == pre.costs_vec@[v] + 1);
                assert(task_term(&pre, v) == pre.costs_vec@[v] + 2);
            }
        } else {
            // Unheld afterwards: unheld before, since busy ants are
            // untouched.
            assert(!(exists|b: int|
                0 <= b < pre.n_ants && (#[trigger] pre.ants@[b]).current_task == (v as i32)))
                by {
                if exists|b: int|
                    0 <= b < pre.n_ants && (#[trigger] pre.ants@[b]).current_task == (
                    v as i32) {
                    let b = choose|b: int|
                        0 <= b < pre.n_ants && (#[trigger] pre.ants@[b]).current_task == (
                        v as i32);
                    assert(post.ants@[b] == pre.ants@[b]);
                }
            }
        }
    }
}

/// Advancing the clock by one never raises a task's charge, and lowers the
/// charge of every task whose holder still has time to run.
proof fn lemma_phi_increment_pointwise(pre: ManagerAnt, post: ManagerAnt, v: int)
    requires
        pre.wf(),
        post.di_graph == pre.di_graph,
        post.ants@ == pre.ants@,
        post.n_ants == pre.n_ants,
        post.costs_vec@ == pre.costs_vec@,
        post.current_cycle == pre.current_cycle + 1,
    ensures
        task_term(&post, v) <= task_term(&pre, v),
        sg_nodes(pre.di_graph).contains(v) && (exists|a: int|
            0 <= a < pre.n_ants && (#[trigger] pre.ants@[a]).current_task == (v as i32)
                && pre.ants@[a].free_at > pre.current_cycle) ==> task_term(&post, v)
            <= task_term(&pre, v) - 1,
{
    if sg_nodes(pre.di_graph).contains(v) && (exists|a: int|
        0 <= a < pre.n_ants && (#[trigger] pre.ants@[a]).current_task == (v as i32)) {
        let a = choose|a: int|
            0 <= a < pre.n_ants && (#[trigger] pre.ants@[a]).current_task == (v as i32);
        if exists|b: int|
            0 <= b < pre.n_ants && (#[trigger] pre.ants@[b]).current_task == (v as i32)
                && pre.ants@[b].free_at > pre.current_cycle {
            let b = choose|b: int|
                0 <= b < pre.n_ants && (#[trigger] pre.ants@[b]).current_task == (v as i32)
                    && pre.ants@[b].free_at > pre.current_cycle;
            assert(task_term(&pre, v) == pos_part(pre.ants@[b].free_at - pre.current_cycle)
                + 1) by {
                if a != b {
                    assert(pre.ants@[a].current_task == pre.ants@[b].current_task);
                    assert(pre.ants@[a].current_task == -1 || pre.ants@[a].current_task
                        != pre.ants@[b].current_task);
                }
                assert(a == b);
            }
        }
    }
}

/// Every recorded end cycle is bounded by the clock (an open interval's end
/// is the `-1` marker, a blank record's is zero).
proof fn lemma_timeline_ends_bounded(s: &ManagerAnt)
    requires
        s.wf(),
        s.timelines_wf(),
    ensures
        forall|a: int, t: int|
            0 <= a < s.n_ants && 0 <= t < s.n_tasks
                ==> (#[trigger] s.ants@[a].task_history@[t]).2 <= s.current_cycle
                || s.ants@[a].task_history@[t].2 <= 0,
{
    assert forall|a: int, t: int|
        0 <= a < s.n_ants && 0 <= t < s.n_tasks implies (
    #[trigger] s.ants@[a].task_history@[t]).2 <= s.current_cycle
        || s.ants@[a].task_history@[t].2 <= 0 by {
        let rec = s.ants@[a].task_history@[t];
        if rec != (0i32, 0i32, 0i32) {
            if sg_nodes(s.di_graph).contains(t) {
                assert(s.ants@[a].current_task == (t as i32));
                assert(rec.2 == -1i32);
            }
        }
    }
}

/// Timelines of two states that agree on the ants, the graph, the costs and
/// the clock are equally sound.
proof fn lemma_timelines_same(s1: &ManagerAnt, s2: &ManagerAnt)
    requires
        s1.timelines_wf(),
        s2.ants@ == s1.ants@,
        s2.di_graph == s1.di_graph,
        s2.costs_vec@ == s1.costs_vec@,
        s2.current_cycle == s1.current_cycle,
        s2.n_ants == s1.n_ants,
        s2.n_tasks == s1.n_tasks,
    ensures
        s2.timelines_wf(),
{
    assert forall|a: int, t: int|
        0 <= a < s2.n_ants && 0 <= t < s2.n_tasks && s2.closed_record(a, t) implies
        s1.closed_record(a, t) by {}
}

/// Precedence soundness carries between states that agree on the ants and
/// the graph.
proof fn lemma_precedence_same(s1: &ManagerAnt, s2: &ManagerAnt, init_edges: Multiset<(int, int)>)
    requires
        s1.precedence_wf(init_edges),
        s2.ants@ == s1.ants@,
        s2.di_graph == s1.di_graph,
        s2.n_tasks == s1.n_tasks,
        s2.n_ants == s1.n_ants,
    ensures
        s2.precedence_wf(init_edges),
{
}

/// A completion phase keeps the timelines sound: each due ant closes its open
/// interval at the clock (exactly `cost` after it opened, for a positive
/// cost), and every surviving holder still has time to run.
proof fn lemma_completion_keeps_timelines(pre: ManagerAnt, post: ManagerAnt)
    requires
        pre.wf(),
        post.wf(),
        pre.timelines_wf(),
        post.n_tasks == pre.n_tasks,
        post.n_ants == pre.n_ants,
        post.current_cycle == pre.current_cycle,
        post.costs_vec@ == pre.costs_vec@,
        forall|a: int|
            0 <= a < pre.n_ants && pre.ant_due(a) ==> crate::worker_ant::ant_completed(
                pre.ants@[a],
                #[trigger] post.ants@[a],
                pre.current_cycle,
            ),
        forall|a: int|
            0 <= a < pre.n_ants && !pre.ant_due(a) ==> #[trigger] post.ants@[a] == pre.ants@[a],
        sg_nodes(post.di_graph) =~= sg_nodes(pre.di_graph).difference(
            pre.completed_tasks(pre.n_ants as int),
        ),
    ensures
        post.timelines_wf(),
        forall|a: int|
            0 <= a < post.n_ants && (#[trigger] post.ants@[a]).current_task != -1
                ==> post.ants@[a].free_at > post.current_cycle,
{
    let n_ants = pre.n_ants as int;
    // Surviving holders are the not-due ants, untouched, with time left.
    assert forall|a: int|
        0 <= a < post.n_ants && (#[trigger] post.ants@[a]).current_task != -1 implies
        post.ants@[a] == pre.ants@[a] && !pre.ant_due(a) && post.ants@[a].free_at
        > post.current_cycle by {
        if pre.ant_due(a) {
            assert(post.ants@[a].current_task == -1);
        }
    }
    // Records change only where a due ant closes its own task's interval.
    assert forall|a: int, t: int|
        0 <= a < n_ants && 0 <= t < pre.n_tasks && !(pre.ant_due(a) && pre.ants@[a].current_task
            == (t as i32)) implies #[trigger] post.ants@[a].task_history@[t]
        == pre.ants@[a].task_history@[t] by {
        if pre.ant_due(a) {
            assert(pre.ants@[a].current_task as int != t);
        }
    }
    // Clause by clause.
    assert forall|a: int, t: int|
        0 <= a < post.n_ants && 0 <= t < post.n_tasks && sg_nodes(post.di_graph).contains(t)
            && post.ants@[a].current_task != (t as i32) implies (
    #[trigger] post.ants@[a].task_history@[t]) == (0i32, 0i32, 0i32) by {
        assert(sg_nodes(pre.di_graph).contains(t));
        assert(!pre.completed_tasks(n_ants).contains(t));
        if pre.ant_due(a) && pre.ants@[a].current_task == (t as i32) {
            assert(pre.completed_tasks(n_ants).contains(t));
        }
        assert(pre.ants@[a].current_task != (t as i32)) by {
            if pre.ants@[a].current_task == (t as i32) {
                assert(pre.ant_due(a));
            }
        }
    }
    assert forall|a: int, t: int|
        0 <= a < post.n_ants && 0 <= t < post.n_tasks && !sg_nodes(post.di_graph).contains(t)
            && (#[trigger] post.ants@[a].task_history@[t]) != (0i32, 0i32, 0i32) implies {
        let rec = post.ants@[a].task_history@[t];
        &&& rec.0 == t as i32
        &&& 0 <= rec.1 <= rec.2
        &&& rec.2 <= post.current_cycle
        &&& (post.costs_vec@[t] >= 1 ==> rec.2 == rec.1 + post.costs_vec@[t])
    } by {
        if pre.ant_due(a) && pre.ants@[a].current_task == (t as i32) {
            // The interval this ant just closed.
            assert(pre.ants@[a].task_history@[t] == (
                pre.ants@[a].current_task,
                (pre.ants@[a].free_at - pre.costs_vec@[t]) as i32,
                -1i32,
            ));
            assert(post.ants@[a].task_history@[t] == (
                pre.ants@[a].current_task,
                (pre.ants@[a].free_at - pre.costs_vec@[t]) as i32,
                pre.current_cycle,
            ));
            if pre.costs_vec@[t] >= 1 {
                assert(pre.ants@[a].free_at >= pre.current_cycle);
                assert(pre.ants@[a].free_at <= pre.current_cycle);
            }
        } else {
            assert(post.ants@[a].task_history@[t] == pre.ants@[a].task_history@[t]);
            if sg_nodes(pre.di_graph).contains(t) {
                // The task was completed by some other ant this phase; this
                // ant's record of it was blank and stays blank.
                assert(pre.ants@[a].current_task != (t as i32)) by {
                    if pre.ants@[a].current_task == (t as i32) {
                        assert(!pre.ant_due(a));
                        assert(post.ants@[a].current_task == (t as i32));
                        assert(pre.completed_tasks(n_ants).contains(t)) by {
                            assert(sg_nodes(post.di_graph).contains(t) == false);
                        }
                        let b = choose|b: int|
                            0 <= b < n_ants && pre.ant_due(b) && (
                            #[trigger] pre.ants@[b]).current_task == (t as i32);
                        assert(b != a);
                        assert(pre.ants@[b].current_task == -1 || pre.ants@[b].current_task
                            != pre.ants@[a].current_task);
                    }
                }
                assert(pre.ants@[a].task_history@[t] == (0i32, 0i32, 0i32));
            }
        }
    }
    assert forall|a: int, b: int, t: int|
        0 <= a < post.n_ants && 0 <= b < post.n_ants && a != b && 0 <= t < post.n_tasks
            && !sg_nodes(post.di_graph).contains(t) && (
    #[trigger] post.ants@[a].task_history@[t]) != (0i32, 0i32, 0i32) implies (
    #[trigger] post.ants@[b].task_history@[t]) == (0i32, 0i32, 0i32) by {
        if sg_nodes(pre.di_graph).contains(t) {
            // Completed this phase by its unique holder; every other record
            // of it was blank and stays blank.
            assert(pre.ants@[b].current_task != (t as i32)) by {
                if pre.ants@[b].current_task == (t as i32) && pre.ants@[a].current_task == (
                t as i32) {
                    assert(pre.ants@[a].current_task == -1 || pre.ants@[a].current_task
                        != pre.ants@[b].current_task);
                }
                if pre.ants@[b].current_task == (t as i32) && pre.ants@[a].current_task != (
                t as i32) {
                    assert(pre.ants@[a].task_history@[t] == (0i32, 0i32, 0i32));
                    assert(post.ants@[a].task_history@[t] == pre.ants@[a].task_history@[t]);
                }
            }
            assert(pre.ants@[b].task_history@[t] == (0i32, 0i32, 0i32));
            assert(post.ants@[b].task_history@[t] == pre.ants@[b].task_history@[t]);
        } else {
            assert(post.ants@[a].task_history@[t] == pre.ants@[a].task_history@[t]);
            assert(post.ants@[b].task_history@[t] == pre.ants@[b].task_history@[t]);
        }
    }
    assert forall|t: int|
        0 <= t < post.n_tasks && !sg_nodes(post.di_graph).contains(t)
            && #[trigger] post.costs_vec@[t] >= 1 implies exists|a: int|
        0 <= a < post.n_ants && (#[trigger] post.ants@[a].task_history@[t]) != (
        0i32,
        0i32,
        0i32,
        ) by {
        if sg_nodes(pre.di_graph).contains(t) {
            // Completed this phase: its holder just closed a positive-length
            // interval.
            assert(pre.completed_tasks(n_ants).contains(t));
            let c = choose|c: int|
                0 <= c < n_ants && pre.ant_due(c) && (#[trigger] pre.ants@[c]).current_task
                    == (t as i32);
            assert(post.ants@[c].task_history@[t] == (
                pre.ants@[c].current_task,
                (pre.ants@[c].free_at - pre.costs_vec@[t]) as i32,
                pre.current_cycle,
            ));
            assert(pre.ants@[c].free_at >= pre.current_cycle);
            assert(post.ants@[c].task_history@[t].2 >= post.ants@[c].task_history@[t].1 + 1);
            assert(post.ants@[c].task_history@[t] != (0i32, 0i32, 0i32));
        } else {
            let c = choose|a: int|
                0 <= a < pre.n_ants && (#[trigger] pre.ants@[a].task_history@[t]) != (
                0i32,
                0i32,
                0i32,
                );
            assert(post.ants@[c].task_history@[t] == pre.ants@[c].task_history@[t]);
        }
    }
    assert forall|a: int, t: int, u: int|
        0 <= a < post.n_ants && 0 <= t < post.n_tasks && 0 <= u < post.n_tasks && t != u
            && #[trigger] post.closed_record(a, t) && #[trigger] post.closed_record(a, u)
            implies post.ants@[a].task_history@[t].2 <= post.ants@[a].task_history@[u].1
        || post.ants@[a].task_history@[u].2 <= post.ants@[a].task_history@[t].1 by {
        if pre.ant_due(a) {
            let ct = pre.ants@[a].current_task as int;
            if t == ct || u == ct {
                let o = if t == ct {
                    u
                } else {
                    t
                };
                assert(post.ants@[a].task_history@[o] == pre.ants@[a].task_history@[o]);
                assert(pre.closed_record(a, o));
                assert(pre.ants@[a].task_history@[o].2 <= pre.ants@[a].free_at
                    - pre.costs_vec@[ct]);
            } else {
                assert(pre.closed_record(a, t) && pre.closed_record(a, u));
            }
        } else {
            assert(pre.closed_record(a, t) && pre.closed_record(a, u));
        }
    }
    assert forall|a: int, t: int|
        0 <= a < post.n_ants && (#[trigger] post.ants@[a]).current_task != -1 && 0 <= t
            < post.n_tasks && t != post.ants@[a].current_task as int && #[trigger] post.closed_record(
        a,
        t,
    ) implies post.ants@[a].task_history@[t].2 <= post.ants@[a].free_at - post.costs_vec@[
        post.ants@[a].current_task as int
    ] by {
        assert(!pre.ant_due(a));
        assert(pre.closed_record(a, t));
    }
}

/// An assignment phase keeps the timelines sound: each fresh assignment opens
/// its task's interval at the clock, and holders of positive-cost tasks keep
/// strictly positive remaining time.
proof fn lemma_assignment_keeps_timelines(pre: ManagerAnt, post: ManagerAnt)
    requires
        pre.wf(),
        post.wf(),
        pre.timelines_wf(),
        post.n_tasks == pre.n_tasks,
        post.n_ants == pre.n_ants,
        post.di_graph == pre.di_graph,
        post.costs_vec@ == pre.costs_vec@,
        post.current_cycle == pre.current_cycle,
        forall|a: int|
            0 <= a < pre.n_ants && pre.ants@[a].current_task != -1
                ==> #[trigger] post.ants@[a] == pre.ants@[a],
        forall|a: int|
            0 <= a < pre.n_ants && pre.ants@[a].current_task == -1
                ==> #[trigger] ManagerAnt::idle_kept_or_assigned(pre, post, a),
        forall|a: int|
            0 <= a < pre.n_ants && (#[trigger] pre.ants@[a]).current_task != -1
                ==> pre.ants@[a].free_at > pre.current_cycle,
    ensures
        post.timelines_wf(),
        forall|a: int|
            0 <= a < post.n_ants && (#[trigger] post.ants@[a]).current_task != -1
                && post.costs_vec@[post.ants@[a].current_task as int] >= 1
                ==> post.ants@[a].free_at > post.current_cycle,
{
    let n_ants = pre.n_ants as int;
    // Each ant either stands still or opened exactly one fresh interval.
    assert forall|a: int| 0 <= a < n_ants implies post.ants@[a] == pre.ants@[a] || (
    #[trigger] post.ants@[a]).current_task != -1 && pre.ants@[a].current_task == -1
        && post.ants@[a].free_at == pre.current_cycle + pre.costs_vec@[
        post.ants@[a].current_task as int
    ] && pre.available_tasks@[post.ants@[a].current_task as int]
        && post.ants@[a].task_history@ == pre.ants@[a].task_history@.update(
        post.ants@[a].current_task as int,
        (post.ants@[a].current_task, pre.current_cycle, -1i32),
    ) by {
        if pre.ants@[a].current_task == -1 && post.ants@[a] != pre.ants@[a] {
            assert(ManagerAnt::idle_kept_or_assigned(pre, post, a));
            let t = choose|t: int|
                0 <= t < pre.n_tasks && pre.available_tasks@[t] && !post.available_tasks@[t]
                    && post.ants@[a].current_task == (t as i32) && post.ants@[a].free_at
                    == pre.current_cycle + pre.costs_vec@[t] && post.ants@[a].last_task
                    == pre.ants@[a].last_task && post.ants@[a].task_history@
                    == pre.ants@[a].task_history@.update(
                    t,
                    (t as i32, pre.current_cycle, -1i32),
                );
            assert(post.ants@[a].current_task as int == t);
        }
    }
    // A task on offer is live and blank everywhere.
    assert forall|a: int, t: int|
        0 <= a < n_ants && 0 <= t < pre.n_tasks && pre.available_tasks@[t] implies (
    #[trigger] pre.ants@[a].task_history@[t]) == (0i32, 0i32, 0i32) by {
        assert(sg_nodes(pre.di_graph).contains(t));
        assert(pre.ants@[a].current_task != (t as i32));
    }
    assert forall|a: int, t: int|
        0 <= a < post.n_ants && 0 <= t < post.n_tasks && sg_nodes(post.di_graph).contains(t)
            && post.ants@[a].current_task != (t as i32) implies (
    #[trigger] post.ants@[a].task_history@[t]) == (0i32, 0i32, 0i32) by {
        if post.ants@[a] != pre.ants@[a] {
            assert(post.ants@[a].task_history@[t] == pre.ants@[a].task_history@[t]);
        }
        assert(pre.ants@[a].current_task != (t as i32)) by {
            if pre.ants@[a].current_task == (t as i32) {
                assert(post.ants@[a] == pre.ants@[a]);
            }
        }
    }
    assert forall|a: int, t: int|
        0 <= a < post.n_ants && 0 <= t < post.n_tasks && !sg_nodes(post.di_graph).contains(t)
            && (#[trigger] post.ants@[a].task_history@[t]) != (0i32, 0i32, 0i32) implies {
        let rec = post.ants@[a].task_history@[t];
        &&& rec.0 == t as i32
        &&& 0 <= rec.1 <= rec.2
        &&& rec.2 <= post.current_cycle
        &&& (post.costs_vec@[t] >= 1 ==> rec.2 == rec.1 + post.costs_vec@[t])
    } by {
        if post.ants@[a] != pre.ants@[a] {
            assert(sg_nodes(pre.di_graph).contains(post.ants@[a].current_task as int));
            assert(post.ants@[a].current_task as int != t);
            assert(post.ants@[a].task_history@[t] == pre.ants@[a].task_history@[t]);
        }
    }
    // Dead tasks' records are untouched by assignments (every update lands
    // on a live task on offer).
    assert forall|a: int, t: int|
        0 <= a < n_ants && 0 <= t < pre.n_tasks && !sg_nodes(pre.di_graph).contains(t) implies (
    #[trigger] post.ants@[a].task_history@[t]) == pre.ants@[a].task_history@[t] by {
        if post.ants@[a] != pre.ants@[a] {
            assert(sg_nodes(pre.di_graph).contains(post.ants@[a].current_task as int));
        }
    }
    assert forall|t: int|
        0 <= t < post.n_tasks && !sg_nodes(post.di_graph).contains(t)
            && #[trigger] post.costs_vec@[t] >= 1 implies exists|a: int|
        0 <= a < post.n_ants && (#[trigger] post.ants@[a].task_history@[t]) != (
        0i32,
        0i32,
        0i32,
        ) by {
        let c = choose|a: int|
            0 <= a < pre.n_ants && (#[trigger] pre.ants@[a].task_history@[t]) != (
            0i32,
            0i32,
            0i32,
            );
        assert(post.ants@[c].task_history@[t] == pre.ants@[c].task_history@[t]);
    }
    assert forall|a: int, t: int, u: int|
        0 <= a < post.n_ants && 0 <= t < post.n_tasks && 0 <= u < post.n_tasks && t != u
            && #[trigger] post.closed_record(a, t) && #[trigger] post.closed_record(a, u)
            implies post.ants@[a].task_history@[t].2 <= post.ants@[a].task_history@[u].1
        || post.ants@[a].task_history@[u].2 <= post.ants@[a].task_history@[t].1 by {
        if post.ants@[a] != pre.ants@[a] {
            let ct = post.ants@[a].current_task as int;
            assert(t != ct && u != ct) by {
                assert(post.ants@[a].task_history@[ct].2 == -1i32);
            }
            assert(post.ants@[a].task_history@[t] == pre.ants@[a].task_history@[t]);
            assert(post.ants@[a].task_history@[u] == pre.ants@[a].task_history@[u]);
        }
        assert(pre.closed_record(a, t) && pre.closed_record(a, u));
    }
    lemma_timeline_ends_bounded(&pre);
    assert forall|a: int, t: int|
        0 <= a < post.n_ants && (#[trigger] post.ants@[a]).current_task != -1 && 0 <= t
            < post.n_tasks && t != post.ants@[a].current_task as int && #[trigger] post.closed_record(
        a,
        t,
    ) implies post.ants@[a].task_history@[t].2 <= post.ants@[a].free_at - post.costs_vec@[
        post.ants@[a].current_task as int
    ] by {
        let ct = post.ants@[a].current_task as int;
        if post.ants@[a] == pre.ants@[a] {
            assert(pre.closed_record(a, t));
        } else {
            // A fresh assignment opens at the clock; every closed end is
            // already at or before it.
            assert(post.ants@[a].task_history@[t] == pre.ants@[a].task_history@[t]);
            assert(pre.closed_record(a, t));
            assert(pre.ants@[a].task_history@[t].2 <= pre.current_cycle) by {
                assert(pre.ants@[a].task_history@[t].2 <= pre.current_cycle
                    || pre.ants@[a].task_history@[t].2 <= 0);
            }
            assert(post.ants@[a].free_at - post.costs_vec@[ct] == pre.current_cycle);
        }
    }
}

/// Advancing the clock keeps the timelines sound, given every positive-cost
/// holder still has strictly positive remaining time.
proof fn lemma_increment_keeps_timelines(pre: ManagerAnt, post: ManagerAnt)
    requires
        pre.timelines_wf(),
        post.ants@ == pre.ants@,
        post.di_graph == pre.di_graph,
        post.costs_vec@ == pre.costs_vec@,
        post.n_ants == pre.n_ants,
        post.n_tasks == pre.n_tasks,
        post.current_cycle == pre.current_cycle + 1,
        forall|a: int|
            0 <= a < pre.n_ants && (#[trigger] pre.ants@[a]).current_task != -1
                && pre.costs_vec@[pre.ants@[a].current_task as int] >= 1
                ==> pre.ants@[a].free_at > pre.current_cycle,
    ensures
        post.timelines_wf(),
{
    assert forall|a: int, t: int|
        0 <= a < post.n_ants && 0 <= t < post.n_tasks && post.closed_record(a, t) implies
        pre.closed_record(a, t) by {}
}

/// A completion phase respects precedence: a closing source's dependents
/// have not started, and live pairs keep their initial edges.
proof fn lemma_completion_keeps_precedence(
    pre: ManagerAnt,
    post: ManagerAnt,
    init_edges: Multiset<(int, int)>,
)
    requires
        pre.wf(),
        post.wf(),
        pre.timelines_wf(),
        pre.precedence_wf(init_edges),
        post.n_tasks == pre.n_tasks,
        post.n_ants == pre.n_ants,
        post.current_cycle == pre.current_cycle,
        post.costs_vec@ == pre.costs_vec@,
        forall|a: int|
            0 <= a < pre.n_ants && pre.ant_due(a) ==> crate::worker_ant::ant_completed(
                pre.ants@[a],
                #[trigger] post.ants@[a],
                pre.current_cycle,
            ),
        forall|a: int|
            0 <= a < pre.n_ants && !pre.ant_due(a) ==> #[trigger] post.ants@[a] == pre.ants@[a],
        sg_nodes(post.di_graph) =~= sg_nodes(pre.di_graph).difference(
            pre.completed_tasks(pre.n_ants as int),
        ),
        sg_edges(post.di_graph) =~= edges_outside(
            sg_edges(pre.di_graph),
            pre.completed_tasks(pre.n_ants as int),
        ),
    ensures
        post.precedence_wf(init_edges),
{
    broadcast use vstd::multiset::group_multiset_axioms;

    let n_ants = pre.n_ants as int;
    // Records change only where a due ant closes its own running task, and a
    // closure keeps the recorded start.
    assert forall|a: int, t: int|
        0 <= a < n_ants && 0 <= t < pre.n_tasks implies (
    #[trigger] post.ants@[a].task_history@[t]) == pre.ants@[a].task_history@[t] || (
    pre.ant_due(a) && pre.ants@[a].current_task == (t as i32)
        && post.ants@[a].task_history@[t].1 == pre.ants@[a].task_history@[t].1
        && pre.ants@[a].task_history@[t] != (0i32, 0i32, 0i32)
        && post.ants@[a].task_history@[t].2 == pre.current_cycle) by {
        if pre.ant_due(a) && pre.ants@[a].current_task == (t as i32) {
            assert(pre.ants@[a].task_history@[t] == (
                pre.ants@[a].current_task,
                (pre.ants@[a].free_at - pre.costs_vec@[t]) as i32,
                -1i32,
            ));
        } else {
            if pre.ant_due(a) {
                assert(pre.ants@[a].current_task as int != t);
            }
        }
    }
    assert forall|u: int, v: int|
        sg_nodes(post.di_graph).contains(u) && sg_nodes(post.di_graph).contains(v) implies
        sg_edges(post.di_graph).count((u, v)) == #[trigger] init_edges.count((u, v)) by {
        assert(sg_nodes(pre.di_graph).contains(u) && sg_nodes(pre.di_graph).contains(v));
        assert(!pre.completed_tasks(n_ants).contains(u) && !pre.completed_tasks(
            n_ants,
        ).contains(v));
        assert(sg_edges(post.di_graph).count((u, v)) == sg_edges(pre.di_graph).count((u, v)));
    }
    assert forall|u: int, v: int, a: int|
        0 <= v < post.n_tasks && 0 <= a < post.n_ants && #[trigger] init_edges.count((u, v))
            >= 1 && sg_nodes(post.di_graph).contains(u) implies (
    #[trigger] post.ants@[a].task_history@[v]) == (0i32, 0i32, 0i32) by {
        assert(sg_nodes(pre.di_graph).contains(u));
        assert(pre.ants@[a].task_history@[v] == (0i32, 0i32, 0i32));
        if pre.ant_due(a) && pre.ants@[a].current_task == (v as i32) {
            assert(pre.ants@[a].task_history@[v] != (0i32, 0i32, 0i32));
        }
    }
    assert forall|u: int, v: int, a: int, b: int|
        0 <= u < post.n_tasks && 0 <= v < post.n_tasks && 0 <= a < post.n_ants && 0 <= b
            < post.n_ants && #[trigger] init_edges.count((u, v)) >= 1 && (
    #[trigger] post.ants@[a].task_history@[v]) != (0i32, 0i32, 0i32) && (
    #[trigger] post.ants@[b].task_history@[u]) != (0i32, 0i32, 0i32)
        && post.ants@[b].task_history@[u].2 >= 0 implies post.ants@[b].task_history@[u].2
        <= post.ants@[a].task_history@[v].1 by {
        // The dependent's record existed before (completion opens nothing),
        // so the source was already gone; its record either predates this
        // phase or closes right now — at the clock, while the dependent's
        // start cannot exceed the clock only via creation, which completion
        // never does. Case on whether the source's record just closed.
        assert(pre.ants@[a].task_history@[v] != (0i32, 0i32, 0i32));
        assert(post.ants@[a].task_history@[v].1 == pre.ants@[a].task_history@[v].1);
        if post.ants@[b].task_history@[u] == pre.ants@[b].task_history@[u] {
            assert(pre.ants@[b].task_history@[u].2 >= 0);
        } else {
            // The source closed this phase: it was live, so the dependent
            // had no record — contradiction.
            assert(pre.ant_due(b) && pre.ants@[b].current_task == (u as i32));
            assert(sg_nodes(pre.di_graph).contains(u));
            assert(pre.ants@[a].task_history@[v] == (0i32, 0i32, 0i32));
        }
    }
}

/// An assignment phase respects precedence: a task can start only when every
/// initial dependency source is gone, and all their closed records end by
/// the clock — where the new interval begins.
proof fn lemma_assignment_keeps_precedence(
    pre: ManagerAnt,
    post: ManagerAnt,
    init_edges: Multiset<(int, int)>,
)
    requires
        pre.wf(),
        post.wf(),
        pre.timelines_wf(),
        pre.precedence_wf(init_edges),
        post.n_tasks == pre.n_tasks,
        post.n_ants == pre.n_ants,
        post.di_graph == pre.di_graph,
        post.costs_vec@ == pre.costs_vec@,
        post.current_cycle == pre.current_cycle,
        forall|a: int|
            0 <= a < pre.n_ants && pre.ants@[a].current_task != -1
                ==> #[trigger] post.ants@[a] == pre.ants@[a],
        forall|a: int|
            0 <= a < pre.n_ants && pre.ants@[a].current_task == -1
                ==> #[trigger] ManagerAnt::idle_kept_or_assigned(pre, post, a),
    ensures
        post.precedence_wf(init_edges),
{
    let n_ants = pre.n_ants as int;
    lemma_timeline_ends_bounded(&pre);
    // Records change only where an idle ant opens a fresh interval, at the
    // clock, for a previously available task.
    assert forall|a: int, t: int|
        0 <= a < n_ants && 0 <= t < pre.n_tasks implies (
    #[trigger] post.ants@[a].task_history@[t]) == pre.ants@[a].task_history@[t] || (
    pre.available_tasks@[t] && post.ants@[a].task_history@[t] == (
        t as i32,
        pre.current_cycle,
        -1i32,
    )) by {
        if post.ants@[a] != pre.ants@[a] {
            assert(pre.ants@[a].current_task == -1 || post.ants@[a] == pre.ants@[a]);
            assert(ManagerAnt::idle_kept_or_assigned(pre, post, a));
            let tt = choose|t2: int|
                0 <= t2 < pre.n_tasks && pre.available_tasks@[t2] && !post.available_tasks@[t2]
                    && post.ants@[a].current_task == (t2 as i32) && post.ants@[a].free_at
                    == pre.current_cycle + pre.costs_vec@[t2] && post.ants@[a].last_task
                    == pre.ants@[a].last_task && post.ants@[a].task_history@
                    == pre.ants@[a].task_history@.update(
                    t2,
                    (t2 as i32, pre.current_cycle, -1i32),
                );
            if t != tt {
                assert(post.ants@[a].task_history@[t] == pre.ants@[a].task_history@[t]);
            }
        }
    }
    // An available task has no live initial dependency source.
    assert forall|u: int, v: int|
        0 <= v < pre.n_tasks && pre.available_tasks@[v] && #[trigger] init_edges.count((u, v))
            >= 1 implies !sg_nodes(pre.di_graph).contains(u) by {
        if sg_nodes(pre.di_graph).contains(u) {
            assert(sg_nodes(pre.di_graph).contains(v));
            assert(sg_edges(pre.di_graph).count((u, v)) == init_edges.count((u, v)));
            assert(pred_set(pre.di_graph, v).contains(u));
            crate::taskgraph::lemma_pred_set_finite(pre.di_graph, v, pre.n_tasks as int);
            vstd::set::axiom_set_remove_len(pred_set(pre.di_graph, v), u);
            assert(pre.remaining_vec@[v] == 0);
        }
    }
    assert forall|u: int, v: int|
        sg_nodes(post.di_graph).contains(u) && sg_nodes(post.di_graph).contains(v) implies
        sg_edges(post.di_graph).count((u, v)) == #[trigger] init_edges.count((u, v)) by {}
    assert forall|u: int, v: int, a: int|
        0 <= v < post.n_tasks && 0 <= a < post.n_ants && #[trigger] init_edges.count((u, v))
            >= 1 && sg_nodes(post.di_graph).contains(u) implies (
    #[trigger] post.ants@[a].task_history@[v]) == (0i32, 0i32, 0i32) by {
        assert(pre.ants@[a].task_history@[v] == (0i32, 0i32, 0i32));
        if post.ants@[a].task_history@[v] != pre.ants@[a].task_history@[v] {
            assert(pre.available_tasks@[v]);
            assert(!sg_nodes(pre.di_graph).contains(u));
        }
    }
    assert forall|u: int, v: int, a: int, b: int|
        0 <= u < post.n_tasks && 0 <= v < post.n_tasks && 0 <= a < post.n_ants && 0 <= b
            < post.n_ants && #[trigger] init_edges.count((u, v)) >= 1 && (
    #[trigger] post.ants@[a].task_history@[v]) != (0i32, 0i32, 0i32) && (
    #[trigger] post.ants@[b].task_history@[u]) != (0i32, 0i32, 0i32)
        && post.ants@[b].task_history@[u].2 >= 0 implies post.ants@[b].task_history@[u].2
        <= post.ants@[a].task_history@[v].1 by {
        // The source's closed record predates this phase (assignments open
        // intervals, never close them), so its end is bounded by the clock.
        assert(post.ants@[b].task_history@[u] == pre.ants@[b].task_history@[u]) by {
            if post.ants@[b].task_history@[u] != pre.ants@[b].task_history@[u] {
                assert(post.ants@[b].task_history@[u].2 == -1i32);
            }
        }
        if post.ants@[a].task_history@[v] == pre.ants@[a].task_history@[v] {
        } else {
            // The dependent starts right now, at the clock.
            assert(post.ants@[a].task_history@[v].1 == pre.current_cycle);
            assert(pre.ants@[b].task_history@[u].2 <= pre.current_cycle
                || pre.ants@[b].task_history@[u].2 <= 0);
        }
    }
}

/// A completion phase keeps every unblocked live task accounted for: tasks
/// newly at zero become available, tasks already at zero keep their offer or
/// their (not-due) holder.
proof fn lemma_completion_keeps_accounting(pre: ManagerAnt, post: ManagerAnt)
    requires
        pre.wf(),
        post.wf(),
        pre.sources_accounted(),
        post.n_tasks == pre.n_tasks,
        post.n_ants == pre.n_ants,
        forall|a: int|
            0 <= a < pre.n_ants && !pre.ant_due(a) ==> #[trigger] post.ants@[a] == pre.ants@[a],
        sg_nodes(post.di_graph) =~= sg_nodes(pre.di_graph).difference(
            pre.completed_tasks(pre.n_ants as int),
        ),
        forall|v: int|
            0 <= v < pre.n_tasks ==> #[trigger] post.available_tasks@[v] == (
            pre.available_tasks@[v] || (post.remaining_vec@[v] == 0 && pre.remaining_vec@[v]
                >= 1)),
    ensures
        post.sources_accounted(),
{
    assert forall|v: int|
        sg_nodes(post.di_graph).contains(v) && #[trigger] post.remaining_vec@[v] == 0 implies
        post.available_tasks@[v] || (exists|a: int|
            0 <= a < post.n_ants && (#[trigger] post.ants@[a]).current_task == (v as i32)) by {
        assert(sg_nodes(pre.di_graph).contains(v));
        assert(!pre.completed_tasks(pre.n_ants as int).contains(v));
        assert(0 <= v < pre.n_tasks);
        if pre.remaining_vec@[v] >= 1 {
            assert(post.available_tasks@[v]);
        } else {
            assert(pre.remaining_vec@[v] == 0);
            if pre.available_tasks@[v] {
                assert(post.available_tasks@[v]);
            } else {
                let a = choose|a: int|
                    0 <= a < pre.n_ants && (#[trigger] pre.ants@[a]).current_task == (v as i32);
                assert(!pre.ant_due(a)) by {
                    if pre.ant_due(a) {
                        assert(pre.completed_tasks(pre.n_ants as int).contains(v));
                    }
                }
                assert(post.ants@[a].current_task == (v as i32));
            }
        }
    }
}

/// An assignment phase keeps every unblocked live task accounted for: an
/// offer stands or turns into a holder; holders stand still.
proof fn lemma_assignment_keeps_accounting(pre: ManagerAnt, post: ManagerAnt)
    requires
        pre.wf(),
        post.wf(),
        pre.sources_accounted(),
        post.n_tasks == pre.n_tasks,
        post.n_ants == pre.n_ants,
        post.di_graph == pre.di_graph,
        post.remaining_vec@ == pre.remaining_vec@,
        forall|a: int|
            0 <= a < pre.n_ants && pre.ants@[a].current_task != -1
                ==> #[trigger] post.ants@[a] == pre.ants@[a],
        forall|v: int|
            0 <= v < pre.n_tasks && pre.available_tasks@[v] && !(
            #[trigger] post.available_tasks@[v]) ==> exists|a: int|
                0 <= a < pre.n_ants && #[trigger] post.ants@[a].current_task == (v as i32),
    ensures
        post.sources_accounted(),
{
    assert forall|v: int|
        sg_nodes(post.di_graph).contains(v) && #[trigger] post.remaining_vec@[v] == 0 implies
        post.available_tasks@[v] || (exists|a: int|
            0 <= a < post.n_ants && (#[trigger] post.ants@[a]).current_task == (v as i32)) by {
        assert(0 <= v < pre.n_tasks);
        if pre.available_tasks@[v] {
            if !post.available_tasks@[v] {
                let a = choose|a: int|
                    0 <= a < pre.n_ants && #[trigger] post.ants@[a].current_task == (v as i32);
                assert(post.ants@[a].current_task == (v as i32));
            }
        } else {
            let a = choose|a: int|
                0 <= a < pre.n_ants && (#[trigger] pre.ants@[a]).current_task == (v as i32);
            assert(pre.ants@[a].current_task != -1) by {
                assert(v as i32 != -1i32);
            }
            assert(post.ants@[a].current_task == (v as i32));
        }
    }
}

/// Right after an assignment phase, an acyclic task set with work left and
/// at least one ant always has a busy ant: a zero-dependency live task
/// exists, and it is either held, or still on offer — in which case the
/// phase left no ant idle.
proof fn lemma_busy_when_tasks_remain(pre: ManagerAnt, post: ManagerAnt)
    requires
        post.wf(),
        post.sources_accounted(),
        crate::taskgraph::edges_acyclic(sg_edges(post.di_graph)),
        post.n_ants >= 1,
        sg_nodes(post.di_graph).len() > 0,
        (exists|v: int|
            0 <= v < post.n_tasks && #[trigger] post.available_tasks@[v]) ==> forall|a: int|
            0 <= a < post.n_ants ==> #[trigger] post.ants@[a].current_task != -1,
    ensures
        exists|a: int|
            0 <= a < post.n_ants && (#[trigger] post.ants@[a]).current_task != -1,
{
    crate::taskgraph::lemma_acyclic_has_source(
        post.di_graph,
        post.remaining_vec@,
        post.n_tasks as int,
    );
    let v = choose|v: int|
        sg_nodes(post.di_graph).contains(v) && 0 <= v < post.remaining_vec@.len()
            && #[trigger] post.remaining_vec@[v] == 0;
    assert(0 <= v < post.n_tasks);
    if post.available_tasks@[v] {
        assert(post.ants@[0].current_task != -1);
    }
}

/// One assignment-phase step:/// One assignment-phase step: what `choose_task_randomly_weighted` did to
/// `mid` (an intermediate state that agrees with the phase-entry state `pre`
/// on everything the selection reads), restated against `pre`.
proof fn lemma_assignment_step(pre: ManagerAnt, mid: ManagerAnt, post: ManagerAnt, i: int)
    requires
        0 <= i < pre.n_ants,
        pre.n_tasks <= TASKS_MAX,
        mid.available_tasks@.len() == pre.n_tasks,
        mid.n_tasks == pre.n_tasks,
        mid.n_ants == pre.n_ants,
        mid.current_cycle == pre.current_cycle,
        mid.costs_vec@ == pre.costs_vec@,
        mid.ants@.len() == pre.n_ants,
        post.ants@.len() == pre.n_ants,
        mid.ants@[i] == pre.ants@[i],
        forall|v: int|
            0 <= v < pre.n_tasks && #[trigger] mid.available_tasks@[v]
                ==> pre.available_tasks@[v],
        mid.no_task_available() ==> post == mid,
        !mid.no_task_available() ==> exists|t: int| ManagerAnt::assigned(mid, post, i, t),
    ensures
        ManagerAnt::idle_kept_or_assigned(pre, post, i),
        !mid.no_task_available() ==> post.ants@[i].current_task != -1,
{
    if !mid.no_task_available() {
        let t = choose|t: int| ManagerAnt::assigned(mid, post, i, t);
        assert(mid.available_tasks@[t]);
        assert(pre.available_tasks@[t]);
        assert(post.available_tasks@ == mid.available_tasks@.update(t, false));
        assert(!post.available_tasks@[t]);
        assert(post.ants@[i].current_task == t as i32);
        assert(t as i32 != -1i32);
    }
}

/// When none of the first `k` tasks is available, the scan leaves the
/// recorded maximum alone.
proof fn lemma_max_weight_scan_no_avail(s: &ManagerAnt, last: i32, k: int)
    requires
        0 <= k,
        forall|v: int| 0 <= v < k ==> !s.available_tasks@[v],
    ensures
        s.max_weight_scan(last, k) == s.max_weight,
    decreases k,
{
    if k > 0 {
        lemma_max_weight_scan_no_avail(s, last, k - 1);
    }
}

/// The scanned maximum never falls below the recorded one.
pub proof fn lemma_max_weight_scan_ge(s: &ManagerAnt, last: i32, k: int)
    requires
        0 <= k,
    ensures
        s.max_weight_scan(last, k) >= s.max_weight,
    decreases k,
{
    if k > 0 {
        lemma_max_weight_scan_ge(s, last, k - 1);
    }
}

/// Dependency correctness: under the runner's invariant, a live task's
/// dependency count is zero — the task is assignable — exactly when no live
/// predecessor remains, that is, when every task it depended on has
/// completed.
pub proof fn lemma_dependency_correctness(m: &ManagerAnt, v: int)
    requires
        m.wf(),
        sg_nodes(m.di_graph).contains(v),
    ensures
        m.remaining_vec@[v] == 0 <==> pred_set(m.di_graph, v) =~= Set::<int>::empty(),
{
    broadcast use vstd::set::group_set_axioms;

    crate::taskgraph::lemma_pred_set_finite(m.di_graph, v, m.n_tasks as int);
    if m.remaining_vec@[v] == 0 {
        pred_set(m.di_graph, v).lemma_len0_is_empty();
    }
}

} // verus!
