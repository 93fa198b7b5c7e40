use mdp_solver::evaluator::{calculate_diversity, calculate_marginal_contribution};
use mdp_solver::model::{MdpData, SolveError};
use mdp_solver::ratio::Ratio;
use mdp_solver::solver_grasp::{
    check_grasp, greedy_randomized_construction, keep_better, local_search,
    restricted_candidates, solve_grasp, solve_grasp_with, GraspConfig,
};
use rand::rngs::StdRng;
use rand::SeedableRng;

fn scenario(k: usize) -> MdpData {
    let entries = vec![(0, 1, 1u64), (0, 2, 5), (0, 3, 2), (1, 2, 3), (1, 3, 4), (2, 3, 6)];
    MdpData::from_entries(4, k, &entries).unwrap()
}

fn line(n: usize, k: usize) -> MdpData {
    let mut distances = vec![0u64; n * n];
    for i in 0..n {
        for j in 0..n {
            distances[i * n + j] = (i as i64 - j as i64).unsigned_abs();
        }
    }
    MdpData::new(n, k, distances).unwrap()
}

fn is_valid_selection(selected: &[usize], n: usize, k: usize) -> bool {
    let mut seen = vec![false; n];
    for &e in selected {
        if e >= n || seen[e] {
            return false;
        }
        seen[e] = true;
    }
    selected.len() == k
}

#[test]
fn ratio_new_accepts_fractions_between_zero_and_one() {
    assert!(Ratio::new(0, 1).is_some());
    assert!(Ratio::new(3, 10).is_some());
    assert!(Ratio::new(7, 7).is_some());
    assert!(Ratio::new(1, 0).is_none());
    assert!(Ratio::new(0, 0).is_none());
    assert!(Ratio::new(8, 7).is_none());
    let r = Ratio::new(3, 10).unwrap();
    assert_eq!((r.num, r.den), (3, 10));
}

#[test]
fn ratio_is_valid_matches_new() {
    assert!(Ratio { num: 1, den: 2 }.is_valid());
    assert!(!Ratio { num: 3, den: 2 }.is_valid());
    assert!(!Ratio { num: 0, den: 0 }.is_valid());
}

#[test]
fn default_grasp_config() {
    let config = GraspConfig::default();
    assert_eq!(config.iterations, 100);
    assert_eq!((config.alpha.num, config.alpha.den), (3, 10));
    assert_eq!(config.local_search_iters, 1000);
}

#[test]
fn with_alpha_zero_only_the_best_candidates_are_listed() {
    let data = scenario(3);
    let alpha = Ratio { num: 0, den: 1 };
    assert_eq!(restricted_candidates(&data, &[0], &[1, 2, 3], &alpha), vec![1]);
    assert_eq!(restricted_candidates(&data, &[0, 2], &[1, 3], &alpha), vec![1]);
}

#[test]
fn with_alpha_zero_ties_for_the_best_are_all_listed() {
    let data = scenario(3);
    let alpha = Ratio { num: 0, den: 5 };
    assert_eq!(restricted_candidates(&data, &[], &[0, 1, 2, 3], &alpha), vec![0, 1, 2, 3]);
    let tied = MdpData::from_entries(3, 2, &vec![(0, 1, 4), (0, 2, 4)]).unwrap();
    assert_eq!(restricted_candidates(&tied, &[0], &[1, 2], &alpha), vec![0, 1]);
}

#[test]
fn with_alpha_one_every_candidate_is_listed() {
    let data = scenario(3);
    let alpha = Ratio { num: 4, den: 4 };
    assert_eq!(restricted_candidates(&data, &[0], &[1, 2, 3], &alpha), vec![0, 1, 2]);
}

#[test]
fn the_threshold_is_exact() {
    let data = scenario(3);
    // contributions to {0}: element 1 -> 1, element 2 -> 5, element 3 -> 2
    // threshold = 5 - alpha * 4; element 3 is in for alpha >= 3/4, element 1 for alpha = 1
    assert_eq!(restricted_candidates(&data, &[0], &[1, 2, 3], &Ratio { num: 3, den: 4 }), vec![1, 2]);
    assert_eq!(restricted_candidates(&data, &[0], &[1, 2, 3], &Ratio { num: 74, den: 100 }), vec![1]);
    assert_eq!(restricted_candidates(&data, &[0], &[1, 2, 3], &Ratio { num: 99, den: 100 }), vec![1, 2]);
    assert_eq!(restricted_candidates(&data, &[0], &[3, 2, 1], &Ratio { num: 3, den: 4 }), vec![0, 1]);
}

#[test]
fn greedy_construction_picks_the_largest_contribution_at_each_step() {
    let data = line(15, 5);
    let alpha = Ratio { num: 0, den: 1 };
    let mut rng = StdRng::seed_from_u64(1037);
    for _ in 0..20 {
        let selected = greedy_randomized_construction(&data, &alpha, &mut rng).unwrap();
        assert!(is_valid_selection(&selected, 15, 5));
        for step in 0..selected.len() {
            let chosen = calculate_marginal_contribution(selected[step], &selected[..step], &data);
            for candidate in 0..data.n {
                if !selected[..step].contains(&candidate) {
                    assert!(
                        calculate_marginal_contribution(candidate, &selected[..step], &data) <= chosen
                    );
                }
            }
        }
    }
}

#[test]
fn construction_returns_k_distinct_elements_for_any_alpha() {
    let data = line(12, 7);
    let mut rng = StdRng::seed_from_u64(1074);
    for num in 0..=10 {
        let alpha = Ratio { num, den: 10 };
        let selected = greedy_randomized_construction(&data, &alpha, &mut rng).unwrap();
        assert!(is_valid_selection(&selected, 12, 7));
    }
}

#[test]
fn construction_can_take_every_element() {
    let data = line(6, 6);
    let mut rng = StdRng::seed_from_u64(1111);
    let selected = greedy_randomized_construction(&data, &Ratio { num: 1, den: 2 }, &mut rng).unwrap();
    assert!(is_valid_selection(&selected, 6, 6));
}

#[test]
fn construction_fails_when_the_pool_runs_out() {
    let data = MdpData { n: 2, k: 3, distances: vec![0, 1, 1, 0] };
    let mut rng = StdRng::seed_from_u64(1148);
    assert_eq!(
        greedy_randomized_construction(&data, &Ratio { num: 1, den: 2 }, &mut rng).err(),
        Some(SolveError::PoolExhausted)
    );
}

#[test]
fn construction_of_nothing_is_empty() {
    let data = MdpData { n: 2, k: 0, distances: vec![0, 1, 1, 0] };
    let mut rng = StdRng::seed_from_u64(1185);
    assert_eq!(
        greedy_randomized_construction(&data, &Ratio { num: 1, den: 2 }, &mut rng).unwrap(),
        Vec::<usize>::new()
    );
}

#[test]
fn pure_random_construction_is_worse_on_average_than_pure_greedy() {
    let data = line(30, 5);
    let mut rng = StdRng::seed_from_u64(1222);
    let trials = 300;
    let mut greedy_total = 0u128;
    let mut random_total = 0u128;
    for _ in 0..trials {
        let greedy =
            greedy_randomized_construction(&data, &Ratio { num: 0, den: 1 }, &mut rng).unwrap();
        let random =
            greedy_randomized_construction(&data, &Ratio { num: 1, den: 1 }, &mut rng).unwrap();
        greedy_total += calculate_diversity(&greedy, &data);
        random_total += calculate_diversity(&random, &data);
    }
    let greedy_mean = greedy_total as f64 / trials as f64;
    let random_mean = random_total as f64 / trials as f64;
    assert!(random_mean < greedy_mean);
}

#[test]
fn pure_random_construction_reaches_different_selections() {
    let data = line(30, 5);
    let mut rng = StdRng::seed_from_u64(1259);
    let first = greedy_randomized_construction(&data, &Ratio { num: 1, den: 1 }, &mut rng).unwrap();
    let mut differs = false;
    for _ in 0..40 {
        let next = greedy_randomized_construction(&data, &Ratio { num: 1, den: 1 }, &mut rng).unwrap();
        if next != first {
            differs = true;
        }
    }
    assert!(differs);
}

#[test]
fn the_improvement_pass_is_best_improvement() {
    let data = scenario(2);
    assert_eq!(local_search(&data, vec![1, 0], 1), (vec![2, 0], 5));
    assert_eq!(local_search(&data, vec![0, 1], 1), (vec![0, 2], 5));
    assert_eq!(local_search(&data, vec![0, 1], 0), (vec![0, 1], 1));
    let (selected, diversity) = local_search(&data, vec![0, 1], 50);
    assert_eq!(diversity, 6);
    assert_eq!(selected, vec![3, 2]);
}

#[test]
fn a_strictly_better_candidate_replaces_the_incumbent() {
    assert_eq!(keep_better(None, (vec![1, 2], 0)), (vec![1, 2], 0));
    assert_eq!(keep_better(Some((vec![0, 1], 4)), (vec![1, 2], 5)), (vec![1, 2], 5));
    assert_eq!(keep_better(Some((vec![0, 1], 5)), (vec![1, 2], 4)), (vec![0, 1], 5));
}

#[test]
fn of_two_equals_the_first_found_stays() {
    assert_eq!(keep_better(Some((vec![0, 1], 5)), (vec![1, 2], 5)), (vec![0, 1], 5));
}

#[test]
fn solve_grasp_finds_the_optimum_of_the_scenario() {
    let data = scenario(2);
    let config = GraspConfig { iterations: 10, alpha: Ratio { num: 3, den: 10 }, local_search_iters: 100 };
    let (selected, diversity) = solve_grasp(&data, &config).unwrap();
    assert_eq!(diversity, 6);
    let mut found = selected;
    found.sort();
    assert_eq!(found, vec![2, 3]);
}

#[test]
fn solve_grasp_returns_a_valid_solution() {
    let data = line(25, 6);
    let config = GraspConfig { iterations: 5, alpha: Ratio { num: 1, den: 2 }, local_search_iters: 50 };
    let (selected, diversity) = solve_grasp(&data, &config).unwrap();
    assert!(is_valid_selection(&selected, 25, 6));
    assert_eq!(diversity, calculate_diversity(&selected, &data));
}

#[test]
fn solve_grasp_rejects_invalid_configurations_in_order() {
    let data = scenario(2);
    let none = MdpData { n: 2, k: 0, distances: vec![0, 1, 1, 0] };
    let many = MdpData { n: 2, k: 3, distances: vec![0, 1, 1, 0] };
    let good = GraspConfig { iterations: 1, alpha: Ratio { num: 1, den: 2 }, local_search_iters: 1 };
    let bad_alpha = GraspConfig { iterations: 0, alpha: Ratio { num: 3, den: 2 }, local_search_iters: 1 };
    let zero_den = GraspConfig { iterations: 1, alpha: Ratio { num: 0, den: 0 }, local_search_iters: 1 };
    let idle = GraspConfig { iterations: 0, alpha: Ratio { num: 1, den: 2 }, local_search_iters: 1 };
    assert_eq!(solve_grasp(&none, &bad_alpha).err(), Some(SolveError::InvalidSelectionSize));
    assert_eq!(solve_grasp(&many, &good).err(), Some(SolveError::InvalidSelectionSize));
    assert_eq!(solve_grasp(&data, &bad_alpha).err(), Some(SolveError::InvalidRatio));
    assert_eq!(solve_grasp(&data, &zero_den).err(), Some(SolveError::InvalidRatio));
    assert_eq!(solve_grasp(&data, &idle).err(), Some(SolveError::NoRestarts));
    assert!(solve_grasp(&data, &good).is_ok());
}

#[test]
fn a_seeded_grasp_run_can_be_repeated() {
    let data = line(25, 6);
    let config = GraspConfig { iterations: 4, alpha: Ratio { num: 1, den: 2 }, local_search_iters: 50 };
    let first = solve_grasp_with(&data, &config, &mut StdRng::seed_from_u64(3)).unwrap();
    let again = solve_grasp_with(&data, &config, &mut StdRng::seed_from_u64(3)).unwrap();
    assert_eq!(first, again);
    assert!(is_valid_selection(&first.0, 25, 6));
    assert_eq!(first.1, calculate_diversity(&first.0, &data));
}

#[test]
fn more_restarts_never_give_a_worse_result_for_one_seed() {
    let data = line(25, 6);
    let mut last = 0;
    for iterations in 1..6 {
        let config = GraspConfig { iterations, alpha: Ratio { num: 1, den: 1 }, local_search_iters: 0 };
        let (_, diversity) = solve_grasp_with(&data, &config, &mut StdRng::seed_from_u64(9)).unwrap();
        assert!(diversity >= last);
        last = diversity;
    }
}

#[test]
fn check_grasp_refuses_in_order() {
    let data = scenario(2);
    let none = MdpData { n: 2, k: 0, distances: vec![0, 1, 1, 0] };
    let good = GraspConfig { iterations: 1, alpha: Ratio { num: 1, den: 2 }, local_search_iters: 1 };
    let bad_alpha = GraspConfig { iterations: 0, alpha: Ratio { num: 3, den: 2 }, local_search_iters: 1 };
    let idle = GraspConfig { iterations: 0, alpha: Ratio { num: 1, den: 2 }, local_search_iters: 1 };
    assert_eq!(check_grasp(&data, &good), Ok(()));
    assert_eq!(check_grasp(&none, &bad_alpha), Err(SolveError::InvalidSelectionSize));
    assert_eq!(check_grasp(&data, &bad_alpha), Err(SolveError::InvalidRatio));
    assert_eq!(check_grasp(&data, &idle), Err(SolveError::NoRestarts));
}
