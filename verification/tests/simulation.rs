//! The epoch simulation: dependency unlocking, completion monotonicity,
//! reproducibility under a fixed seed, and the end-to-end two-ant scenario.

use ant_colony::colony::Colony;
use ant_colony::manager_ant::ManagerAnt;
use ant_colony::pherohormones::Pherohormones;
use ant_colony::utils::Utils;
use rand::SeedableRng;

fn loaded(n: usize, costs: Vec<i32>, edges: Vec<(usize, usize)>) -> Utils {
    let mut u = Utils::new();
    u.load_graph(n, costs, edges).unwrap();
    u.init_arrays();
    u
}

fn runner(u: &Utils, n_ants: usize) -> ManagerAnt {
    let ph = Pherohormones::new(u.n_tasks);
    // deposit rate 1, evaporation rate 1, alfa 0, beta 1, base chance big
    // enough that every available task is pickable.
    ManagerAnt::new(u, n_ants, &ph, 1, 1, 0, 1, 1_000_000)
}

#[test]
fn dependency_counts_drop_as_predecessors_complete() {
    // Tasks {0, 1, 2}, edges 0 -> 2 and 1 -> 2: task 2 starts with two
    // unresolved dependencies and becomes available only when both 0 and 1
    // have completed.
    let u = loaded(3, vec![1, 1, 1], vec![(0, 2), (1, 2)]);
    assert_eq!(u.remaining_vec, vec![0, 0, 2]);

    let mut rng = rand::rngs::StdRng::seed_from_u64(5);
    let mut m = runner(&u, 1);
    m.init_available_tasks();
    assert_eq!(m.available_tasks, vec![true, true, false]);

    // One ant takes 0 or 1; the other stays pending.
    m.check_available_tasks(&mut rng);
    assert_eq!(m.remaining_vec[2], 2);

    // Its completion resolves one of task 2's two dependencies.
    m.current_cycle = 1;
    m.check_tasks_completion();
    assert_eq!(m.remaining_vec[2], 1);
    assert!(!m.available_tasks[2]);

    // The second predecessor completes: count reaches 0, task 2 available.
    m.check_available_tasks(&mut rng);
    m.current_cycle = 2;
    m.check_tasks_completion();
    assert_eq!(m.remaining_vec[2], 0);
    assert!(m.available_tasks[2]);
}

#[test]
fn completion_strictly_shrinks_the_graph_until_empty() {
    let u = loaded(3, vec![1, 1, 1], vec![(0, 2), (1, 2)]);
    let mut rng = rand::rngs::StdRng::seed_from_u64(5);
    let mut m = runner(&u, 2);
    m.init_available_tasks();
    m.check_available_tasks(&mut rng);
    // Both ants hold a task; each completion removes exactly one node.
    m.current_cycle = 1;
    m.check_tasks_completion();
    m.check_available_tasks(&mut rng);
    m.current_cycle = 2;
    m.check_tasks_completion();
    // Three tasks existed; after completing 0, 1 and then 2, the graph is
    // consumed and the epoch's makespan is the last processed cycle.
    assert_eq!(m.remaining_vec, vec![0, 0, 0]);
}

#[test]
fn serial_chain_takes_one_cycle_per_unit_of_cost() {
    // One ant, three unit-cost tasks forced serial by 0 -> 2 and 1 -> 2:
    // assignments at cycles 0, 1, 2, last completion processed at cycle 3.
    let u = loaded(3, vec![1, 1, 1], vec![(0, 2), (1, 2)]);
    let mut rng = rand::rngs::StdRng::seed_from_u64(11);
    let mut m = runner(&u, 1);
    let cycles = m.work(&mut rng);
    assert_eq!(cycles, 3);
}

#[test]
fn two_ant_scenario_finishes_in_two_cycles_with_makespan_one() {
    // Costs [0, 1, 1], edges 0 -> 1 and 0 -> 2, two ants: the zero-cost
    // task 0 is picked and completed within cycle 0, tasks 1 and 2 then run
    // in parallel for one cycle each, and the loop's last processed cycle is
    // 1 — the reported makespan — with the counter stopping at 2.
    let u = loaded(3, vec![0, 1, 1], vec![(0, 1), (0, 2)]);
    let mut rng = rand::rngs::StdRng::seed_from_u64(99);
    let mut m = runner(&u, 2);
    let cycles = m.work(&mut rng);
    assert_eq!(cycles, 1);
    assert_eq!(m.current_c(), 2);
    // Both parallel tasks ran for exactly one cycle, side by side, and the
    // makespan is the largest recorded end cycle.
    let h1 = find_interval(&m, 1);
    let h2 = find_interval(&m, 2);
    assert_eq!(h1, h2);
    assert_eq!(h1.1 - h1.0, 1);
    let max_end = m
        .ants
        .iter()
        .flat_map(|a| a.task_history.iter().map(|&(_, _, e)| e))
        .max()
        .unwrap();
    assert_eq!(max_end, cycles);
}

fn find_interval(m: &ManagerAnt, task: usize) -> (i32, i32) {
    for ant in &m.ants {
        let (id, start, end) = ant.task_history[task];
        if id as usize == task && !(start == 0 && end == 0) {
            return (start, end);
        }
    }
    panic!("task {} never ran", task);
}

#[test]
fn a_fixed_seed_reproduces_the_whole_epoch() {
    let u = loaded(6, vec![2, 1, 3, 1, 2, 1], vec![(0, 3), (1, 3), (2, 5), (3, 4)]);
    let run = |seed: u64| {
        let mut rng = rand::rngs::StdRng::seed_from_u64(seed);
        let mut m = runner(&u, 2);
        let cycles = m.work(&mut rng);
        let histories: Vec<Vec<(i32, i32, i32)>> =
            m.ants.iter().map(|a| a.task_history.clone()).collect();
        (cycles, histories)
    };
    let (c1, h1) = run(2024);
    let (c2, h2) = run(2024);
    assert_eq!(c1, c2);
    assert_eq!(h1, h2);
}

#[test]
fn aco_reports_the_best_makespan_over_all_epochs() {
    let u = loaded(3, vec![0, 1, 1], vec![(0, 1), (0, 2)]);
    let mut colony = Colony::new(&u, 2, 1, 1, 0, 1_000_000, 0, 1);
    let mut rng = rand::rngs::StdRng::seed_from_u64(3);
    let (best, history) = colony.ACO(5, -1, &mut rng);
    // Every epoch of this graph with two ants has makespan 1.
    assert_eq!(best, 1);
    assert_eq!(colony.best_cycle, 1);
    assert_eq!(history.len(), 2);
}

#[test]
fn aco_stops_early_at_the_benchmark() {
    let u = loaded(3, vec![0, 1, 1], vec![(0, 1), (0, 2)]);
    let mut colony = Colony::new(&u, 2, 1, 1, 0, 1_000_000, 0, 1);
    let mut rng = rand::rngs::StdRng::seed_from_u64(3);
    // The very first epoch reaches makespan 1 <= 2, so the search stops with
    // that result regardless of the epoch ceiling.
    let (best, _) = colony.ACO(1_000_000, 2, &mut rng);
    assert_eq!(best, 1);
}

#[test]
fn an_empty_task_set_reports_makespan_minus_one() {
    let u = loaded(0, vec![], vec![]);
    let mut rng = rand::rngs::StdRng::seed_from_u64(1);
    let mut m = runner(&u, 1);
    let cycles = m.work(&mut rng);
    assert_eq!(cycles, -1);
}

#[test]
fn deposits_happen_on_transitions_only() {
    // A single ant working a serial chain deposits on every transition
    // between consecutive tasks, but not before its first task.
    let u = loaded(2, vec![1, 1], vec![(0, 1)]);
    let mut rng = rand::rngs::StdRng::seed_from_u64(4);
    let mut m = runner(&u, 1);
    let cycles = m.work(&mut rng);
    assert_eq!(cycles, 2);
    // Exactly one transition: 0 -> 1, at the configured deposit rate 1.
    assert_eq!(m.local_pherohormones.edge_weight(0, 1), 1);
    assert_eq!(m.local_pherohormones.edge_weight(1, 0), 0);
}
