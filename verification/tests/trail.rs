//! Pheromone trail dynamics: deposits accumulate, evaporation floors at zero
//! and prunes, the cached sum tracks recomputation, and the colony's elitist
//! replacement rule.

use ant_colony::colony::{next_base_chance, Colony};
use ant_colony::pherohormones::Pherohormones;
use ant_colony::utils::Utils;
use ant_colony::worker_ant::WorkerAnt;
use rand::SeedableRng;

#[test]
fn deposit_creates_and_accumulates() {
    let mut ph = Pherohormones::new(4);
    assert_eq!(ph.edge_weight(0, 1), 0);
    ph.deposit_pherohormones(0, 1, 7);
    assert_eq!(ph.edge_weight(0, 1), 7);
    // Depositing twice on the same edge with rate r yields 2 r, not an
    // overwrite.
    ph.deposit_pherohormones(0, 1, 7);
    assert_eq!(ph.edge_weight(0, 1), 14);
    assert_eq!(ph.edge_weight(1, 0), 0);
}

#[test]
fn deposits_leave_the_cached_sum_stale_until_recomputed() {
    let mut ph = Pherohormones::new(4);
    ph.deposit_pherohormones(0, 1, 5);
    ph.deposit_pherohormones(0, 2, 5);
    assert_eq!(ph.pheromones_sum(), 0);
    ph.update_pherohormones_sum();
    assert_eq!(ph.pheromones_sum(), 10);
}

#[test]
fn evaporation_subtracts_and_recomputes_the_sum() {
    let mut ph = Pherohormones::new(4);
    ph.deposit_pherohormones(0, 1, 5);
    ph.deposit_pherohormones(0, 2, 5);
    ph.evaporate_pherohormones(2);
    assert_eq!(ph.edge_weight(0, 1), 3);
    assert_eq!(ph.edge_weight(0, 2), 3);
    assert_eq!(ph.pheromones_sum(), 6);
}

#[test]
fn evaporation_floors_at_zero_and_prunes() {
    let mut ph = Pherohormones::new(4);
    ph.deposit_pherohormones(0, 1, 5);
    ph.deposit_pherohormones(2, 3, 9);
    // 5 - 5 would reach zero: the edge must be absent afterwards, not merely
    // zero.
    ph.evaporate_pherohormones(5);
    assert_eq!(ph.edge_weight(0, 1), 0);
    assert_eq!(ph.find_paths(0).len(), 0);
    assert_eq!(ph.edge_weight(2, 3), 4);
    assert_eq!(ph.pheromones_sum(), 4);
}

#[test]
fn find_paths_lists_every_outgoing_edge_once() {
    let mut ph = Pherohormones::new(5);
    ph.deposit_pherohormones(1, 0, 2);
    ph.deposit_pherohormones(1, 3, 4);
    ph.deposit_pherohormones(2, 3, 8);
    let paths = ph.find_paths(1);
    assert_eq!(paths.len(), 2);
    let mut seen: Vec<(usize, u64)> = paths.iter().map(|p| (p.task, p.weight)).collect();
    seen.sort();
    assert_eq!(seen, vec![(0, 2), (3, 4)]);
    assert_eq!(ph.find_paths(0).len(), 0);
}

#[test]
fn initialize_resets_the_trail() {
    let mut ph = Pherohormones::new(3);
    ph.deposit_pherohormones(0, 1, 9);
    ph.update_pherohormones_sum();
    ph.initialize();
    assert_eq!(ph.edge_weight(0, 1), 0);
    assert_eq!(ph.pheromones_sum(), 0);
}

fn small_colony() -> Colony {
    let mut u = Utils::new();
    u.load_graph(3, vec![1, 1, 1], vec![(0, 1), (0, 2)]).unwrap();
    u.init_arrays();
    // deposit rate 10, evaporation rate 1, base chance 1000.
    Colony::new(&u, 2, 10, 1, 0, 1000, 0, 1)
}

#[test]
fn elitist_rule_replaces_only_on_qualifying_epochs() {
    let mut colony = small_colony();
    assert_eq!(colony.best_cycle, i32::MAX);

    let mut local1 = Pherohormones::new(3);
    local1.deposit_pherohormones(0, 1, 10);
    colony.absorb_epoch(5, local1, Vec::<WorkerAnt>::new(), 77);
    // First epoch always qualifies; the trail is adopted and then evaporated
    // by rate 1: 10 - 1 = 9.
    assert_eq!(colony.best_cycle, 5);
    assert_eq!(colony.max_weight, 77);
    assert_eq!(colony.pherohormones.edge_weight(0, 1), 9);

    let mut local2 = Pherohormones::new(3);
    local2.deposit_pherohormones(1, 2, 10);
    colony.absorb_epoch(6, local2, Vec::<WorkerAnt>::new(), 99);
    // A worse epoch leaves everything untouched: no replacement, no
    // evaporation, no new best.
    assert_eq!(colony.best_cycle, 5);
    assert_eq!(colony.max_weight, 77);
    assert_eq!(colony.pherohormones.edge_weight(0, 1), 9);
    assert_eq!(colony.pherohormones.edge_weight(1, 2), 0);

    let mut local3 = Pherohormones::new(3);
    local3.deposit_pherohormones(1, 2, 10);
    colony.absorb_epoch(5, local3, Vec::<WorkerAnt>::new(), 11);
    // An equal makespan still qualifies: wholesale replacement.
    assert_eq!(colony.best_cycle, 5);
    assert_eq!(colony.max_weight, 11);
    assert_eq!(colony.pherohormones.edge_weight(0, 1), 0);
    assert_eq!(colony.pherohormones.edge_weight(1, 2), 9);
}

#[test]
fn retuned_floor_stays_in_its_band() {
    let mut rng = rand::rngs::StdRng::seed_from_u64(21);
    for _ in 0..50 {
        // A reference of 1000: the new floor is drawn from [10, 2000).
        let r = next_base_chance(1000, 5, &mut rng);
        assert!(r >= 10);
        assert!(r < 2000);
    }
    // A zero reference leaves the floor alone.
    assert_eq!(next_base_chance(0, 5, &mut rng), 5);
    // A tiny reference keeps the floor positive.
    let r = next_base_chance(1, 5, &mut rng);
    assert!(r >= 1 && r < 2);
}

#[test]
fn best_makespan_never_increases() {
    let mut colony = small_colony();
    let mut last_best = colony.best_cycle;
    for cycles in [9, 12, 7, 7, 30, 3] {
        colony.absorb_epoch(cycles, Pherohormones::new(3), Vec::<WorkerAnt>::new(), 0);
        assert!(colony.best_cycle <= last_best);
        last_best = colony.best_cycle;
    }
    assert_eq!(last_best, 3);
}
