use mdp_solver::evaluator::{calculate_diversity, calculate_swap_gain};
use mdp_solver::model::{MdpData, SolveError};
use mdp_solver::neighborhood::{
    apply_swap, find_first_admitted, find_max_admitted, run_descent, Admission, MoveRule,
    SearchStatus, GAIN_TOLERANCE,
};
use mdp_solver::selection::complement;
use mdp_solver::solver_direct::{solve_direct, solve_direct_with};
use rand::rngs::StdRng;
use rand::SeedableRng;
use mdp_solver::solver_local_search::{
    best_improvement_search, first_improvement_search, local_search_from, search_partition,
    solve_local_search, solve_local_search_with, LocalSearchConfig, LocalSearchMethod,
};

fn scenario(k: usize) -> MdpData {
    let entries = vec![(0, 1, 1u64), (0, 2, 5), (0, 3, 2), (1, 2, 3), (1, 3, 4), (2, 3, 6)];
    MdpData::from_entries(4, k, &entries).unwrap()
}

fn grid(n: usize, k: usize) -> MdpData {
    let mut distances = vec![0u64; n * n];
    for i in 0..n {
        for j in 0..n {
            let (xi, yi) = ((i * 7) % 11, (i * 5) % 13);
            let (xj, yj) = ((j * 7) % 11, (j * 5) % 13);
            let dx = xi as i64 - xj as i64;
            let dy = yi as i64 - yj as i64;
            distances[i * n + j] = (dx * dx + dy * dy) as u64;
        }
    }
    MdpData::new(n, k, distances).unwrap()
}

fn best_single_swap_gain(data: &MdpData, selected: &[usize]) -> i128 {
    let mut best = i128::MIN;
    for &leaving in selected {
        for entering in 0..data.n {
            if !selected.contains(&entering) {
                best = best.max(calculate_swap_gain(leaving, entering, selected, data));
            }
        }
    }
    best
}

fn is_valid_selection(selected: &[usize], n: usize, k: usize) -> bool {
    let mut seen = vec![false; n];
    for &e in selected {
        if e >= n || seen[e] {
            return false;
        }
        seen[e] = true;
    }
    selected.len() == k
}

fn exhaustive_optimum(data: &MdpData) -> u128 {
    let mut best = 0;
    for mask in 0u32..(1 << data.n) {
        if mask.count_ones() as usize == data.k {
            let sel: Vec<usize> = (0..data.n).filter(|i| mask & (1 << i) != 0).collect();
            best = best.max(calculate_diversity(&sel, data));
        }
    }
    best
}

#[test]
fn gain_tolerance_is_zero() {
    assert_eq!(GAIN_TOLERANCE, 0);
}

#[test]
fn default_config_is_best_improvement_with_5000_iterations() {
    let config = LocalSearchConfig::default();
    assert!(matches!(config.method, LocalSearchMethod::BestImprovement));
    assert_eq!(config.max_iters, 5000);
}

#[test]
fn best_improvement_reaches_the_optimum_from_every_pair() {
    let data = scenario(2);
    assert_eq!(exhaustive_optimum(&data), 6);
    for a in 0..4 {
        for b in 0..4 {
            if a == b {
                continue;
            }
            let selected = vec![a, b];
            let unselected = complement(&selected, 4);
            let out = best_improvement_search(&data, selected, unselected, 100);
            assert_eq!(out.status, SearchStatus::Converged);
            assert_eq!(out.diversity, calculate_diversity(&out.selected, &data));
            assert!(best_single_swap_gain(&data, &out.selected) <= 0);
            assert_eq!(out.diversity, 6);
            let mut found = out.selected.clone();
            found.sort();
            assert_eq!(found, vec![2, 3]);
        }
    }
}

#[test]
fn best_improvement_takes_the_largest_gain_first() {
    let data = scenario(2);
    let out = best_improvement_search(&data, vec![0, 1], vec![2, 3], 1);
    assert_eq!(out.selected, vec![0, 2]);
    assert_eq!(out.diversity, 5);
    assert_eq!(out.status, SearchStatus::Exhausted);
}

#[test]
fn first_improvement_takes_the_first_gain_in_scan_order() {
    let data = scenario(2);
    let out = first_improvement_search(&data, vec![0, 1], vec![2, 3], 1);
    assert_eq!(out.selected, vec![2, 1]);
    assert_eq!(out.diversity, 3);
    assert_eq!(out.status, SearchStatus::Exhausted);
}

#[test]
fn first_improvement_converges_to_a_local_optimum() {
    let data = scenario(2);
    let out = first_improvement_search(&data, vec![0, 1], vec![2, 3], 100);
    assert_eq!(out.status, SearchStatus::Converged);
    assert_eq!(out.diversity, 6);
    assert!(best_single_swap_gain(&data, &out.selected) <= 0);
}

#[test]
fn a_search_without_budget_returns_its_start() {
    let data = scenario(2);
    let out = best_improvement_search(&data, vec![0, 1], vec![2, 3], 0);
    assert_eq!(out.selected, vec![0, 1]);
    assert_eq!(out.diversity, 1);
    assert_eq!(out.status, SearchStatus::Exhausted);
}

#[test]
fn a_search_from_the_optimum_converges_at_once() {
    let data = scenario(2);
    let out = first_improvement_search(&data, vec![3, 2], vec![0, 1], 5);
    assert_eq!(out.selected, vec![3, 2]);
    assert_eq!(out.diversity, 6);
    assert_eq!(out.status, SearchStatus::Converged);
}

#[test]
fn swaps_of_equal_value_are_not_taken() {
    let data = MdpData::new(3, 1, vec![0, 4, 4, 4, 0, 4, 4, 4, 0]).unwrap();
    let out = first_improvement_search(&data, vec![1], vec![0, 2], 50);
    assert_eq!(out.selected, vec![1]);
    assert_eq!(out.status, SearchStatus::Converged);
    let data = MdpData::new(3, 2, vec![0, 4, 4, 4, 0, 4, 4, 4, 0]).unwrap();
    let out = best_improvement_search(&data, vec![2, 0], vec![1], 50);
    assert_eq!(out.selected, vec![2, 0]);
    assert_eq!(out.diversity, 4);
    assert_eq!(out.status, SearchStatus::Converged);
}

#[test]
fn descents_on_a_larger_instance_end_in_local_optima() {
    let data = grid(24, 6);
    for rule in [MoveRule::FirstImprovement, MoveRule::BestImprovement] {
        for limit in [None, Some(1000usize)] {
            let selected = vec![0, 1, 2, 3, 4, 5];
            let unselected = complement(&selected, 24);
            let start = calculate_diversity(&selected, &data);
            let out = run_descent(&data, selected, unselected, rule, limit);
            assert_eq!(out.status, SearchStatus::Converged);
            assert!(is_valid_selection(&out.selected, 24, 6));
            assert_eq!(out.diversity, calculate_diversity(&out.selected, &data));
            assert!(out.diversity >= start);
            assert!(best_single_swap_gain(&data, &out.selected) <= 0);
        }
    }
}

#[test]
fn an_exhausted_descent_has_gained_at_least_its_budget() {
    let data = grid(24, 6);
    let selected = vec![0, 1, 2, 3, 4, 5];
    let unselected = complement(&selected, 24);
    let start = calculate_diversity(&selected, &data);
    let out = run_descent(&data, selected, unselected, MoveRule::FirstImprovement, Some(2));
    assert_eq!(out.status, SearchStatus::Exhausted);
    assert!(out.diversity >= start + 2);
    assert_eq!(out.diversity, calculate_diversity(&out.selected, &data));
}

#[test]
fn scans_return_position_and_gain() {
    let data = scenario(2);
    let first = find_first_admitted(&data, &[0, 1], &[2, 3], &Admission::Improving);
    assert_eq!(first, Some((0, 0, 2)));
    let best = find_max_admitted(&data, &[0, 1], &[2, 3], &Admission::Improving);
    assert_eq!(best, Some((1, 0, 4)));
    assert_eq!(find_first_admitted(&data, &[2, 3], &[0, 1], &Admission::Improving), None);
    assert_eq!(find_max_admitted(&data, &[2, 3], &[0, 1], &Admission::Improving), None);
}

#[test]
fn the_best_scan_keeps_the_first_of_equal_gains() {
    let data = MdpData::new(3, 1, vec![0, 4, 4, 4, 0, 4, 4, 4, 0]).unwrap();
    let data2 = MdpData::from_entries(4, 2, &vec![(0, 1, 1), (0, 2, 3), (0, 3, 3), (1, 2, 3), (1, 3, 3)])
        .unwrap();
    assert_eq!(find_max_admitted(&data, &[0], &[1, 2], &Admission::Improving), None);
    assert_eq!(find_max_admitted(&data2, &[0, 1], &[2, 3], &Admission::Improving), Some((0, 0, 2)));
}

#[test]
fn apply_swap_exchanges_the_two_elements() {
    let mut selected = vec![5, 6, 7];
    let mut unselected = vec![1, 2];
    apply_swap(&mut selected, &mut unselected, 2, 0);
    assert_eq!(selected, vec![5, 6, 1]);
    assert_eq!(unselected, vec![7, 2]);
}

#[test]
fn search_partition_runs_the_chosen_method() {
    let data = scenario(2);
    let out = search_partition(&data, vec![0, 1], vec![2, 3], LocalSearchMethod::FirstImprovement, 1);
    assert_eq!(out.selected, vec![2, 1]);
    let out = search_partition(&data, vec![0, 1], vec![2, 3], LocalSearchMethod::BestImprovement, 1);
    assert_eq!(out.selected, vec![0, 2]);
    let out = search_partition(
        &data,
        vec![0, 1],
        vec![2, 3],
        LocalSearchMethod::TabuSearch { tabu_tenure: 3 },
        1,
    );
    assert_eq!(out.selected, vec![0, 2]);
}

#[test]
fn local_search_from_scans_the_complement_in_increasing_order() {
    let data = scenario(2);
    let out = local_search_from(&data, vec![1, 0], LocalSearchMethod::FirstImprovement, 1);
    assert_eq!(out.selected, vec![2, 0]);
    assert_eq!(out.diversity, 5);
    let out = local_search_from(&data, vec![1, 0], LocalSearchMethod::BestImprovement, 10);
    assert_eq!(out.diversity, 6);
    assert_eq!(out.status, SearchStatus::Converged);
}

#[test]
fn solve_local_search_returns_a_valid_solution_for_each_method() {
    let data = grid(20, 5);
    let methods = [
        LocalSearchMethod::FirstImprovement,
        LocalSearchMethod::BestImprovement,
        LocalSearchMethod::TabuSearch { tabu_tenure: 4 },
    ];
    for method in methods {
        for _ in 0..5 {
            let config = LocalSearchConfig { method, max_iters: 200 };
            let (selected, diversity) = solve_local_search(&data, &config).unwrap();
            assert!(is_valid_selection(&selected, 20, 5));
            assert_eq!(diversity, calculate_diversity(&selected, &data));
            if !matches!(method, LocalSearchMethod::TabuSearch { .. }) {
                assert!(best_single_swap_gain(&data, &selected) <= 0);
            }
        }
    }
}

#[test]
fn solve_local_search_finds_the_optimum_of_the_scenario() {
    let data = scenario(2);
    for _ in 0..10 {
        let (selected, diversity) = solve_local_search(&data, &LocalSearchConfig::default()).unwrap();
        assert_eq!(diversity, 6);
        let mut found = selected;
        found.sort();
        assert_eq!(found, vec![2, 3]);
    }
}

#[test]
fn solve_local_search_rejects_an_invalid_k() {
    let none = MdpData { n: 2, k: 0, distances: vec![0, 1, 1, 0] };
    let many = MdpData { n: 2, k: 3, distances: vec![0, 1, 1, 0] };
    let config = LocalSearchConfig::default();
    assert_eq!(solve_local_search(&none, &config).err(), Some(SolveError::InvalidSelectionSize));
    assert_eq!(solve_local_search(&many, &config).err(), Some(SolveError::InvalidSelectionSize));
}

#[test]
fn solve_local_search_with_k_equal_to_n_takes_everything() {
    let data = scenario(4);
    let (selected, diversity) = solve_local_search(&data, &LocalSearchConfig::default()).unwrap();
    assert!(is_valid_selection(&selected, 4, 4));
    assert_eq!(diversity, 21);
}

#[test]
fn solve_direct_ends_in_a_local_optimum() {
    let data = grid(20, 5);
    for _ in 0..5 {
        let (selected, diversity) = solve_direct(&data).unwrap();
        assert!(is_valid_selection(&selected, 20, 5));
        assert_eq!(diversity, calculate_diversity(&selected, &data));
        assert!(best_single_swap_gain(&data, &selected) <= 0);
    }
    let (_, diversity) = solve_direct(&scenario(2)).unwrap();
    assert_eq!(diversity, 6);
}

#[test]
fn solve_direct_rejects_an_invalid_k() {
    let none = MdpData { n: 2, k: 0, distances: vec![0, 1, 1, 0] };
    let many = MdpData { n: 2, k: 5, distances: vec![0, 1, 1, 0] };
    assert_eq!(solve_direct(&none).err(), Some(SolveError::InvalidSelectionSize));
    assert_eq!(solve_direct(&many).err(), Some(SolveError::InvalidSelectionSize));
}

#[test]
fn a_seeded_local_search_can_be_repeated() {
    let data = grid(20, 5);
    let methods = [
        LocalSearchMethod::FirstImprovement,
        LocalSearchMethod::BestImprovement,
        LocalSearchMethod::TabuSearch { tabu_tenure: 4 },
    ];
    for method in methods {
        let config = LocalSearchConfig { method, max_iters: 100 };
        let first = solve_local_search_with(&data, &config, &mut StdRng::seed_from_u64(5)).unwrap();
        let again = solve_local_search_with(&data, &config, &mut StdRng::seed_from_u64(5)).unwrap();
        assert_eq!(first, again);
        assert!(is_valid_selection(&first.0, 20, 5));
        assert_eq!(first.1, calculate_diversity(&first.0, &data));
    }
}

#[test]
fn different_seeds_give_different_starts() {
    let data = grid(20, 5);
    let config = LocalSearchConfig { method: LocalSearchMethod::BestImprovement, max_iters: 0 };
    let first = solve_local_search_with(&data, &config, &mut StdRng::seed_from_u64(1)).unwrap();
    let mut differs = false;
    for seed in 2..30 {
        let next = solve_local_search_with(&data, &config, &mut StdRng::seed_from_u64(seed)).unwrap();
        assert!(is_valid_selection(&next.0, 20, 5));
        if next.0 != first.0 {
            differs = true;
        }
    }
    assert!(differs);
}

#[test]
fn a_seeded_direct_run_can_be_repeated() {
    let data = grid(20, 5);
    let first = solve_direct_with(&data, &mut StdRng::seed_from_u64(11)).unwrap();
    let again = solve_direct_with(&data, &mut StdRng::seed_from_u64(11)).unwrap();
    assert_eq!(first, again);
    assert!(best_single_swap_gain(&data, &first.0) <= 0);
    let none = MdpData { n: 2, k: 0, distances: vec![0, 1, 1, 0] };
    assert_eq!(
        solve_direct_with(&none, &mut StdRng::seed_from_u64(11)).err(),
        Some(SolveError::InvalidSelectionSize)
    );
}
