//! Fixed-point arithmetic, selection, visibility derivation, parameter
//! drawing, loader validation, and the orchestrator's pick.

use ant_colony::colony::best_index;
use ant_colony::fixed::{fp_pow, fp_ratio, score, SCALE};
use ant_colony::selection::{select_weighted, sum_of_weights};
use ant_colony::utils::{GraphError, Utils, COST_MAX, TASKS_MAX};
use rand::SeedableRng;

#[test]
fn fp_ratio_exact_values() {
    assert_eq!(fp_ratio(1, 2), 500_000);
    assert_eq!(fp_ratio(1, 3), 333_333);
    assert_eq!(fp_ratio(1_000_000, 1_000_000), SCALE);
}

#[test]
fn fp_ratio_caps_at_one_and_absorbs_zero_denominator() {
    assert_eq!(fp_ratio(5, 2), SCALE);
    assert_eq!(fp_ratio(7, 0), 0);
    assert_eq!(fp_ratio(0, 9), 0);
}

#[test]
fn fp_pow_exact_values() {
    assert_eq!(fp_pow(500_000, 0), SCALE);
    assert_eq!(fp_pow(500_000, 1), 500_000);
    assert_eq!(fp_pow(500_000, 2), 250_000);
    assert_eq!(fp_pow(SCALE, 17), SCALE);
}

#[test]
fn score_weights_trail_ratio_when_alfa_zero_beta_one() {
    // (vis/vis_sum)^0 * (w/pher_sum)^1 = w/pher_sum.
    assert_eq!(score(500_000, 3, 0, 1, 1_000_000, 12), 250_000);
}

#[test]
fn score_is_zero_without_pheromone_sum() {
    assert_eq!(score(500_000, 3, 0, 1, 1_000_000, 0), 0);
}

#[test]
fn score_combines_both_ratios() {
    // (1/2)^1 * (1/4)^1 = 1/8.
    assert_eq!(score(1, 1, 1, 1, 2, 4), 125_000);
}

#[test]
fn selection_picks_the_segment_containing_the_draw() {
    let weights: Vec<u64> = vec![2, 3, 5];
    assert_eq!(sum_of_weights(&weights), 10);
    assert_eq!(select_weighted(&weights, 0), 0);
    assert_eq!(select_weighted(&weights, 1), 0);
    assert_eq!(select_weighted(&weights, 2), 1);
    assert_eq!(select_weighted(&weights, 4), 1);
    assert_eq!(select_weighted(&weights, 5), 2);
    assert_eq!(select_weighted(&weights, 9), 2);
}

#[test]
fn selection_skips_zero_weight_candidates() {
    let weights: Vec<u64> = vec![0, 4, 0, 1];
    assert_eq!(select_weighted(&weights, 0), 1);
    assert_eq!(select_weighted(&weights, 3), 1);
    assert_eq!(select_weighted(&weights, 4), 3);
}

#[test]
fn seeded_selection_is_reproducible() {
    // Same candidate set, same weights, same seed: the same task is chosen
    // every run.
    let weights: Vec<u64> = vec![7, 1, 9, 2];
    let total = sum_of_weights(&weights);
    let mut first: Option<usize> = None;
    for _ in 0..5 {
        let mut rng = rand::rngs::StdRng::seed_from_u64(1234);
        let draw = rand::Rng::random_range(&mut rng, 0..total);
        let picked = select_weighted(&weights, draw);
        match first {
            None => first = Some(picked),
            Some(p) => assert_eq!(p, picked),
        }
    }
}

#[test]
fn visibility_favors_cheap_tasks_that_unlock_many() {
    let mut u = Utils::new();
    u.load_graph(2, vec![2, 4], vec![(0, 1)]).unwrap();
    u.init_arrays();
    assert_eq!(u.n_tasks, 2);
    assert_eq!(u.unlocks_vec, vec![1, 0]);
    assert_eq!(u.max_cost, 4);
    assert_eq!(u.max_unlocks, 1);
    // raw(0) = (1 - 2/4) + 1/1 = 1.5; raw(1) = (1 - 4/4) + 0 = 0;
    // normalized by 1.5: [1, 0].
    assert_eq!(u.visibility, vec![1_000_000, 0]);
    assert_eq!(u.visibility_sum, 1_000_000);
}

#[test]
fn visibility_absorbs_degenerate_maxima() {
    // All costs equal the maximum and nothing unlocks anything: every raw
    // visibility is 0, the normalization maximum is 0, and the whole vector
    // collapses to zeros instead of faulting.
    let mut u = Utils::new();
    u.load_graph(2, vec![3, 3], vec![]).unwrap();
    u.init_arrays();
    assert_eq!(u.visibility, vec![0, 0]);
    assert_eq!(u.visibility_sum, 0);
}

#[test]
fn load_rejects_too_many_tasks() {
    let mut u = Utils::new();
    let r = u.load_graph(TASKS_MAX + 1, vec![], vec![]);
    assert_eq!(r, Err(GraphError::TooManyTasks));
}

#[test]
fn load_rejects_wrong_cost_count() {
    let mut u = Utils::new();
    let r = u.load_graph(3, vec![1, 1], vec![]);
    assert_eq!(r, Err(GraphError::WrongCostCount));
}

#[test]
fn load_rejects_cost_out_of_range() {
    let mut u = Utils::new();
    assert_eq!(
        u.load_graph(2, vec![1, -1], vec![]),
        Err(GraphError::CostOutOfRange)
    );
    assert_eq!(
        u.load_graph(2, vec![1, COST_MAX + 1], vec![]),
        Err(GraphError::CostOutOfRange)
    );
}

#[test]
fn load_rejects_bad_edges() {
    let mut u = Utils::new();
    assert_eq!(
        u.load_graph(2, vec![1, 1], vec![(0, 2)]),
        Err(GraphError::BadEdge)
    );
    assert_eq!(
        u.load_graph(2, vec![1, 1], vec![(0, 1), (0, 1)]),
        Err(GraphError::BadEdge)
    );
}

#[test]
fn load_accepts_sound_data() {
    let mut u = Utils::new();
    assert_eq!(u.load_graph(3, vec![1, 2, 3], vec![(0, 2), (1, 2)]), Ok(()));
    assert_eq!(u.n_tasks, 3);
    assert_eq!(u.remaining_vec, vec![0, 0, 2]);
    assert_eq!(u.costs_vec, vec![1, 2, 3]);
}

#[test]
fn task_successors_lists_outgoing_edges() {
    let mut u = Utils::new();
    u.load_graph(4, vec![1, 1, 1, 1], vec![(0, 1), (0, 3), (2, 3)]).unwrap();
    let mut s0 = u.task_successors(0);
    s0.sort();
    assert_eq!(s0, vec![1, 3]);
    assert_eq!(u.task_successors(1), Vec::<usize>::new());
    assert_eq!(u.task_successors(2), vec![3]);
    assert_eq!(u.task_successors(3), Vec::<usize>::new());
}

#[test]
fn parameter_pairs_stay_in_their_band() {
    let mut u = Utils::new();
    let mut rng = rand::rngs::StdRng::seed_from_u64(7);
    u.init_parameters_vec(8, 1000, &mut rng);
    assert_eq!(u.thread_pherohormones.len(), 8);
    for &(dr, er) in &u.thread_pherohormones {
        assert_eq!(dr, 1000);
        assert!(er >= 100);
        assert!(er < 750);
    }
}

#[test]
fn best_index_takes_the_first_minimum() {
    let ms: Vec<i32> = vec![5, 3, 9, 3];
    assert_eq!(best_index(&ms), 1);
    let one: Vec<i32> = vec![42];
    assert_eq!(best_index(&one), 0);
}
