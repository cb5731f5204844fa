//! One agent of the simulation: at most one task at a time, a record of when
//! it becomes free, and an append-only timeline of (task, start, end)
//! intervals. A task id of `-1` stands for "idle" / "none yet".

use crate::pherohormones::{deposited, Pherohormones};
use vstd::prelude::*;

verus! {

#[derive(Clone)]
pub struct WorkerAnt {
    /// The task being worked on, or `-1` when idle.
    pub current_task: i32,
    /// The most recently completed task, or `-1` when none has completed.
    pub last_task: i32,
    /// The cycle at which `current_task` completes, `-1` when idle.
    pub free_at: i32,
    /// Entry `t` is `(t, start_cycle, end_cycle)` once task `t` has been
    /// started; `end_cycle` is `-1` while it runs, and `(0, 0, 0)` before.
    pub task_history: Vec<(i32, i32, i32)>,
}

/// Two ant lists agree field for field (timelines compared by contents).
pub open spec fn ants_equal(a: Seq<WorkerAnt>, b: Seq<WorkerAnt>) -> bool {
    a.len() == b.len() && forall|i: int|
        0 <= i < a.len() ==> (#[trigger] a[i]).current_task == b[i].current_task
            && a[i].last_task == b[i].last_task && a[i].free_at == b[i].free_at
            && a[i].task_history@ == b[i].task_history@
}

/// The effect of completing a running task at `cycle`: the ant goes idle,
/// the task becomes its last, and the task's timeline interval closes.
pub open spec fn ant_completed(pre_ant: WorkerAnt, post_ant: WorkerAnt, cycle: i32) -> bool {
    &&& post_ant.current_task == -1
    &&& post_ant.free_at == -1
    &&& post_ant.last_task == pre_ant.current_task
    &&& post_ant.task_history@ == pre_ant.task_history@.update(
        pre_ant.current_task as int,
        (
            pre_ant.current_task,
            pre_ant.task_history@[pre_ant.current_task as int].1,
            cycle,
        ),
    )
}

impl WorkerAnt {
    /// A fresh, idle ant with an empty timeline over `n_tasks` tasks.
    pub fn new(n_tasks: i32) -> (r: WorkerAnt)
        requires
            n_tasks >= 0,
        ensures
            r.current_task == -1,
            r.last_task == -1,
            r.free_at == -1,
            r.task_history@.len() == n_tasks,
            forall|t: int| 0 <= t < n_tasks ==> r.task_history@[t] == (0i32, 0i32, 0i32),
    {
        let n = n_tasks as usize;
        let mut task_history: Vec<(i32, i32, i32)> = Vec::new();
        let mut i: usize = 0;
        while i < n
            invariant
                i <= n,
                task_history@.len() == i,
                forall|t: int| 0 <= t < i ==> task_history@[t] == (0i32, 0i32, 0i32),
            decreases n - i,
        {
            task_history.push((0, 0, 0));
            i = i + 1;
        }
        WorkerAnt { current_task: -1, last_task: -1, free_at: -1, task_history }
    }

    /// Assigns `chosen_task` to the ant until `free_at`, opens its timeline
    /// interval at `current_cycle`, and — when the ant has a defined last
    /// task — deposits pheromone on the transition `last_task ->
    /// chosen_task`.
    pub fn start_task(
        &mut self,
        last_task: i32,
        chosen_task: i32,
        free_at: i32,
        pherohormones: &mut Pherohormones,
        deposit_rate: u64,
        current_cycle: i32,
    )
        requires
            0 <= chosen_task < old(self).task_history@.len(),
            old(pherohormones).wf(),
            deposit_rate >= 1,
            chosen_task < old(pherohormones).spec_n_tasks(),
            old(self).last_task != -1 ==> last_task == old(self).last_task && 0 <= last_task
                < old(pherohormones).spec_n_tasks(),
        ensures
            final(self).current_task == chosen_task,
            final(self).free_at == free_at,
            final(self).last_task == old(self).last_task,
            final(self).task_history@ == old(self).task_history@.update(
                chosen_task as int,
                (chosen_task, current_cycle, -1i32),
            ),
            final(pherohormones).wf(),
            final(pherohormones).spec_n_tasks() == old(pherohormones).spec_n_tasks(),
            old(self).last_task != -1 ==> final(pherohormones)@ =~= deposited(
                old(pherohormones)@,
                last_task as int,
                chosen_task as int,
                deposit_rate,
            ),
            old(self).last_task == -1 ==> final(pherohormones)@ == old(pherohormones)@,
            final(pherohormones).spec_pheromones_sum() == old(
                pherohormones,
            ).spec_pheromones_sum(),
    {
        self.current_task = chosen_task;
        self.free_at = free_at;
        if self.last_task != -1 {
            pherohormones.deposit_pherohormones(
                last_task as usize,
                chosen_task as usize,
                deposit_rate,
            );
        }
        self.task_history.set(chosen_task as usize, (chosen_task, current_cycle, -1));
    }

    /// Marks the ant idle, records `finished_task` as its last task, and
    /// closes that task's timeline interval at `current_cycle`.
    pub fn complete_task(&mut self, finished_task: i32, current_cycle: i32)
        requires
            0 <= finished_task < old(self).task_history@.len(),
        ensures
            final(self).current_task == -1,
            final(self).free_at == -1,
            final(self).last_task == finished_task,
            final(self).task_history@ == old(self).task_history@.update(
                finished_task as int,
                (
                    finished_task,
                    old(self).task_history@[finished_task as int].1,
                    current_cycle,
                ),
            ),
    {
        self.current_task = -1;
        self.free_at = -1;
        self.last_task = finished_task;
        let start = self.task_history[finished_task as usize].1;
        self.task_history.set(finished_task as usize, (finished_task, start, current_cycle));
    }
}

} // verus!
