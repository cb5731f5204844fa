//! One colony: a persistent pheromone trail driven through many epochs, with
//! the elitist replacement rule — an epoch whose makespan is at most the best
//! recorded so far replaces the whole trail with its local one (then
//! evaporated) and becomes the new best; any other epoch changes nothing.

use crate::fixed::SCALE;
use crate::manager_ant::{ManagerAnt, BASE_MAX};
use crate::pherohormones::{evaporated, Pherohormones};
use crate::rng::rng_below;
use crate::utils::Utils;
use crate::worker_ant::{ants_equal, WorkerAnt};
use vstd::prelude::*;

verus! {

/// The exploration scheduler: redraws the exploration floor in proportion to
/// the largest selection score observed, keeping exploration meaningful as
/// pheromone accumulates. The new floor is uniform between a hundredth and
/// twice that score, and never below one (the floor must stay positive for
/// every candidate to remain selectable); a zero reference leaves the floor
/// as it is.
pub fn next_base_chance(
    max_weight_ref: u64,
    current: u64,
    rng: &mut rand::rngs::StdRng,
) -> (r: u64)
    requires
        1 <= current <= BASE_MAX,
        max_weight_ref <= SCALE,
    ensures
        1 <= r <= BASE_MAX,
        max_weight_ref == 0 ==> r == current,
        max_weight_ref >= 100 ==> max_weight_ref / 100 <= r < 2 * max_weight_ref,
        1 <= max_weight_ref < 100 ==> 1 <= r < 2 * max_weight_ref,
{
    if max_weight_ref == 0 {
        return current;
    }
    let min_value = max_weight_ref / 100;
    let max_value = 2 * max_weight_ref;
    let drawn = min_value + rng_below(rng, max_value - min_value);
    if drawn < 1 {
        // Only reachable for a reference below 100, whose band starts at
        // zero; the floor must stay positive for every candidate to remain
        // selectable.
        1
    } else {
        drawn
    }
}

/// An element-for-element copy of an ant list (timelines included).
pub fn clone_ants(v: &Vec<WorkerAnt>) -> (r: Vec<WorkerAnt>)
    ensures
        ants_equal(r@, v@),
{
    let mut r: Vec<WorkerAnt> = Vec::new();
    let n = v.len();
    let mut i: usize = 0;
    while i < n
        invariant
            n == v@.len(),
            i <= n,
            r@.len() == i,
            forall|j: int|
                0 <= j < i ==> (#[trigger] r@[j]).current_task == v@[j].current_task
                    && r@[j].last_task == v@[j].last_task && r@[j].free_at == v@[j].free_at
                    && r@[j].task_history@ == v@[j].task_history@,
        decreases n - i,
    {
        let a = &v[i];
        let copy = WorkerAnt {
            current_task: a.current_task,
            last_task: a.last_task,
            free_at: a.free_at,
            task_history: crate::copy_vec(&a.task_history),
        };
        r.push(copy);
        i = i + 1;
    }
    r
}

/// One independent search instance: the loaded task set, a persistent trail,
/// the colony's rates and exploration parameters, and the best result seen.
pub struct Colony {
    pub utils: Utils,
    /// The persistent trail; replaced wholesale only by qualifying epochs.
    pub pherohormones: Pherohormones,
    pub deposit_rate: u64,
    pub evaporation_rate: u64,
    pub n_ants: usize,
    pub thread_id: i32,
    /// The exploration floor added to every candidate's weight.
    pub base_chance: u64,
    pub alfa: u32,
    pub beta: u32,
    /// The largest selection score of the best epoch so far.
    pub max_weight: u64,
    /// The smallest makespan over all qualifying epochs so far.
    pub best_cycle: i32,
    /// The ant timelines of the epoch that set `best_cycle`.
    pub best_work_history: Vec<WorkerAnt>,
}

impl Colony {
    pub open spec fn wf(&self) -> bool {
        &&& self.utils.graph_loaded()
        &&& self.utils.arrays_ready()
        &&& self.pherohormones.wf()
        &&& self.pherohormones.spec_n_tasks() == self.utils.n_tasks
        &&& self.deposit_rate >= 1
        &&& 1 <= self.base_chance <= BASE_MAX
    }

    /// A colony over its own clone of the task set, with an empty persistent
    /// trail and no result yet.
    pub fn new(
        utils: &Utils,
        n_ants: usize,
        deposit_rate: u64,
        evaporation_rate: u64,
        thread_id: i32,
        base_chance: u64,
        alfa: u32,
        beta: u32,
    ) -> (r: Colony)
        requires
            utils.graph_loaded(),
            utils.arrays_ready(),
            deposit_rate >= 1,
            1 <= base_chance <= BASE_MAX,
        ensures
            r.wf(),
            r.best_cycle == i32::MAX,
            r.pherohormones@ =~= Map::<(int, int), u64>::empty(),
            r.deposit_rate == deposit_rate,
            r.evaporation_rate == evaporation_rate,
            r.n_ants == n_ants,
            r.thread_id == thread_id,
            r.base_chance == base_chance,
            r.alfa == alfa,
            r.beta == beta,
            r.utils.n_tasks == utils.n_tasks,
            r.utils.graph_loaded() && r.utils.arrays_ready(),
            crate::taskgraph::sg_nodes(r.utils.di_graph) == crate::taskgraph::sg_nodes(
                utils.di_graph,
            ),
            crate::taskgraph::sg_edges(r.utils.di_graph) == crate::taskgraph::sg_edges(
                utils.di_graph,
            ),
            r.utils.remaining_vec@ == utils.remaining_vec@,
            r.utils.unlocks_vec@ == utils.unlocks_vec@,
            r.utils.costs_vec@ == utils.costs_vec@,
            r.utils.max_cost == utils.max_cost,
            r.utils.max_unlocks == utils.max_unlocks,
            r.utils.visibility@ == utils.visibility@,
            r.utils.visibility_sum == utils.visibility_sum,
            r.max_weight == 0,
            r.best_work_history@.len() == 0,
    {
        Colony {
            utils: utils.duplicate(),
            pherohormones: Pherohormones::new(utils.n_tasks),
            deposit_rate,
            evaporation_rate,
            n_ants,
            thread_id,
            base_chance,
            alfa,
            beta,
            max_weight: 0,
            best_cycle: i32::MAX,
            best_work_history: Vec::new(),
        }
    }

    /// The elitist replacement rule, applied to one finished epoch. A
    /// makespan at most the best so far qualifies: the persistent trail is
    /// replaced wholesale by the epoch's local trail and then evaporated,
    /// and the best makespan, timeline, and score are updated. Any other
    /// epoch leaves the colony untouched. The recorded best never increases.
    pub fn absorb_epoch(
        &mut self,
        cycles: i32,
        local_pherohormones: Pherohormones,
        work_history: Vec<WorkerAnt>,
        epoch_max_weight: u64,
    )
        requires
            old(self).wf(),
            local_pherohormones.wf(),
            local_pherohormones.spec_n_tasks() == old(self).utils.n_tasks,
        ensures
            final(self).wf(),
            final(self).best_cycle <= old(self).best_cycle,
            cycles <= old(self).best_cycle ==> final(self).best_cycle == cycles
                && final(self).pherohormones@ =~= evaporated(
                local_pherohormones@,
                old(self).evaporation_rate,
            ) && final(self).best_work_history@ == work_history@ && final(self).max_weight
                == epoch_max_weight,
            cycles > old(self).best_cycle ==> *final(self) == *old(self),
            *final(self) == (Colony {
                pherohormones: final(self).pherohormones,
                max_weight: final(self).max_weight,
                best_cycle: final(self).best_cycle,
                best_work_history: final(self).best_work_history,
                ..*old(self)
            }),
    {
        if cycles <= self.best_cycle {
            self.pherohormones = local_pherohormones;
            self.pherohormones.evaporate_pherohormones(self.evaporation_rate);
            self.best_cycle = cycles;
            self.best_work_history = work_history;
            self.max_weight = epoch_max_weight;
        }
    }

    /// The full search: up to `epochs` epochs, each a fresh construction
    /// against the persistent trail, absorbed under the elitist rule; after
    /// the second epoch the exploration floor is redrawn once from the first
    /// scored epoch's largest score; the loop stops early as soon as an
    /// epoch meets the `benchmark`. Returns the best makespan and the ant
    /// timelines that achieved it.
    #[verifier::loop_isolation(false)]
    #[allow(non_snake_case)]
    pub fn ACO(&mut self, epochs: i32, benchmark: i32, rng: &mut rand::rngs::StdRng) -> (r: (
        i32,
        Vec<WorkerAnt>,
    ))
        requires
            old(self).wf(),
        ensures
            final(self).wf(),
            r.0 == final(self).best_cycle,
            ants_equal(r.1@, final(self).best_work_history@),
            final(self).best_cycle <= old(self).best_cycle,
            epochs >= 1 ==> final(self).best_cycle < i32::MAX,
            epochs <= 0 ==> *final(self) == *old(self),
            final(self).utils == old(self).utils,
            final(self).deposit_rate == old(self).deposit_rate,
            final(self).evaporation_rate == old(self).evaporation_rate,
            final(self).n_ants == old(self).n_ants,
            final(self).thread_id == old(self).thread_id,
            final(self).alfa == old(self).alfa,
            final(self).beta == old(self).beta,
    {
        let mut max_weight_ref: u64 = 0;
        let mut epoch: i32 = 0;
        let mut benchmark_met = false;
        while epoch < epochs && !benchmark_met
            invariant
                self.wf(),
                self.best_cycle <= old(self).best_cycle,
                max_weight_ref <= SCALE,
                epoch >= 0,
                self.utils == old(self).utils,
                self.deposit_rate == old(self).deposit_rate,
                self.evaporation_rate == old(self).evaporation_rate,
                self.n_ants == old(self).n_ants,
                self.thread_id == old(self).thread_id,
                self.alfa == old(self).alfa,
                self.beta == old(self).beta,
                epochs <= 0 ==> epoch == 0 && !benchmark_met,
                epoch == 0 && !benchmark_met ==> *self == *old(self),
                epoch >= 1 || benchmark_met ==> self.best_cycle < i32::MAX,
            decreases epochs - epoch,
        {
            if epoch == 2 {
                let b = next_base_chance(max_weight_ref, self.base_chance, rng);
                self.base_chance = b;
            }
            let mut manager = ManagerAnt::new(
                &self.utils,
                self.n_ants,
                &self.pherohormones,
                self.evaporation_rate,
                self.deposit_rate,
                self.alfa,
                self.beta,
                self.base_chance,
            );
            let cycles = manager.work(rng);
            let manager_max_weight = manager.max_weight;
            proof {
                // An epoch's makespan is below the cycle cap, so after one
                // absorbed epoch the recorded best leaves the sentinel.
                assert(cycles < i32::MAX);
            }
            self.absorb_epoch(
                cycles,
                manager.local_pherohormones,
                manager.ants,
                manager_max_weight,
            );
            if epoch == 1 {
                max_weight_ref = manager_max_weight;
            }
            if cycles <= benchmark {
                benchmark_met = true;
            }
            epoch = epoch + 1;
        }
        let best_history = clone_ants(&self.best_work_history);
        (self.best_cycle, best_history)
    }

    /// The colony's best makespan so far.
    pub fn current_c(&self) -> (r: i32)
        ensures
            r == self.best_cycle,
    {
        self.best_cycle
    }
}

/// The orchestrator's final pick: the index of the colony with the smallest
/// best makespan (the first such, when several tie).
pub fn best_index(makespans: &Vec<i32>) -> (r: usize)
    requires
        makespans@.len() >= 1,
    ensures
        r < makespans@.len(),
        forall|i: int| 0 <= i < makespans@.len() ==> makespans@[r as int] <= #[trigger] makespans@[i],
        forall|i: int| 0 <= i < r ==> makespans@[r as int] < #[trigger] makespans@[i],
{
    let n = makespans.len();
    let mut best: usize = 0;
    let mut i: usize = 1;
    while i < n
        invariant
            n == makespans@.len(),
            best < i <= n,
            forall|j: int| 0 <= j < i ==> makespans@[best as int] <= #[trigger] makespans@[j],
            forall|j: int| 0 <= j < best ==> makespans@[best as int] < #[trigger] makespans@[j],
        decreases n - i,
    {
        if makespans[i] < makespans[best] {
            best = i;
        }
        i = i + 1;
    }
    best
}

} // verus!
