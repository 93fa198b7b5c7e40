use mdp_solver::evaluator::{calculate_diversity, calculate_marginal_contribution};
use mdp_solver::model::{MdpData, SolveError};
use mdp_solver::ratio::Ratio;
use mdp_solver::solver::{construct, solve, ConstructionMode, Strategy};
use mdp_solver::solver_grasp::GraspConfig;
use mdp_solver::solver_local_search::{LocalSearchConfig, LocalSearchMethod};
use mdp_solver::solver_population::GeneticConfig;
use rand::rngs::StdRng;
use rand::SeedableRng;

fn scenario(k: usize) -> MdpData {
    let entries = vec![(0, 1, 1u64), (0, 2, 5), (0, 3, 2), (1, 2, 3), (1, 3, 4), (2, 3, 6)];
    MdpData::from_entries(4, k, &entries).unwrap()
}

fn line(n: usize, k: usize) -> MdpData {
    let mut distances = vec![0u64; n * n];
    for i in 0..n {
        for j in 0..n {
            distances[i * n + j] = (i as i64 - j as i64).unsigned_abs();
        }
    }
    MdpData::new(n, k, distances).unwrap()
}

fn is_valid_selection(selected: &[usize], n: usize, k: usize) -> bool {
    let mut seen = vec![false; n];
    for &e in selected {
        if e >= n || seen[e] {
            return false;
        }
        seen[e] = true;
    }
    selected.len() == k
}

fn strategies() -> Vec<Strategy> {
    vec![
        Strategy::Direct,
        Strategy::LocalSearch(LocalSearchConfig {
            method: LocalSearchMethod::FirstImprovement,
            max_iters: 100,
        }),
        Strategy::LocalSearch(LocalSearchConfig {
            method: LocalSearchMethod::BestImprovement,
            max_iters: 100,
        }),
        Strategy::LocalSearch(LocalSearchConfig {
            method: LocalSearchMethod::TabuSearch { tabu_tenure: 2 },
            max_iters: 100,
        }),
        Strategy::Grasp(GraspConfig {
            iterations: 5,
            alpha: Ratio { num: 3, den: 10 },
            local_search_iters: 100,
        }),
        Strategy::Genetic(GeneticConfig {
            population_size: 8,
            generations: 11,
            crossover_rate: Ratio { num: 4, den: 5 },
            mutation_rate: Ratio { num: 1, den: 10 },
            elite_size: 2,
        }),
    ]
}

#[test]
fn every_strategy_returns_k_distinct_elements_and_their_diversity() {
    let data = line(18, 5);
    let mut rng = StdRng::seed_from_u64(77);
    for strategy in strategies() {
        let (selected, diversity) = solve(&data, &strategy, &mut rng).unwrap();
        assert!(is_valid_selection(&selected, 18, 5));
        assert_eq!(diversity, calculate_diversity(&selected, &data));
    }
}

#[test]
fn every_strategy_solves_the_scenario() {
    let data = scenario(2);
    let mut rng = StdRng::seed_from_u64(78);
    for strategy in strategies() {
        let (selected, diversity) = solve(&data, &strategy, &mut rng).unwrap();
        assert_eq!(diversity, 6);
        let mut found = selected;
        found.sort();
        assert_eq!(found, vec![2, 3]);
    }
}

#[test]
fn every_strategy_rejects_an_invalid_k() {
    let none = MdpData { n: 3, k: 0, distances: vec![0; 9] };
    let many = MdpData { n: 3, k: 4, distances: vec![0; 9] };
    let mut rng = StdRng::seed_from_u64(79);
    for strategy in strategies() {
        assert_eq!(solve(&none, &strategy, &mut rng).err(), Some(SolveError::InvalidSelectionSize));
        assert_eq!(solve(&many, &strategy, &mut rng).err(), Some(SolveError::InvalidSelectionSize));
    }
}

#[test]
fn random_construction_gives_a_valid_selection() {
    let data = line(10, 4);
    let mut rng = StdRng::seed_from_u64(80);
    for _ in 0..20 {
        let selected = construct(&data, ConstructionMode::Random, &mut rng).unwrap();
        assert!(is_valid_selection(&selected, 10, 4));
    }
}

#[test]
fn greedy_construction_through_the_entry_point_is_greedy() {
    let data = line(10, 4);
    let mut rng = StdRng::seed_from_u64(81);
    let mode = ConstructionMode::GreedyRandomized { alpha: Ratio { num: 0, den: 1 } };
    for _ in 0..20 {
        let selected = construct(&data, mode, &mut rng).unwrap();
        assert!(is_valid_selection(&selected, 10, 4));
        let second = calculate_marginal_contribution(selected[1], &selected[..1], &data);
        assert_eq!(second, std::cmp::max(selected[0] as u128, 9 - selected[0] as u128));
    }
}

#[test]
fn construction_rejects_invalid_input_in_order() {
    let data = line(10, 4);
    let none = MdpData { n: 3, k: 0, distances: vec![0; 9] };
    let many = MdpData { n: 3, k: 4, distances: vec![0; 9] };
    let bad = ConstructionMode::GreedyRandomized { alpha: Ratio { num: 2, den: 1 } };
    let mut rng = StdRng::seed_from_u64(82);
    assert_eq!(construct(&none, ConstructionMode::Random, &mut rng).err(), Some(SolveError::InvalidSelectionSize));
    assert_eq!(construct(&many, bad, &mut rng).err(), Some(SolveError::InvalidSelectionSize));
    assert_eq!(construct(&data, bad, &mut rng).err(), Some(SolveError::InvalidRatio));
    assert!(construct(&data, ConstructionMode::Random, &mut rng).is_ok());
}
