use mdp_solver::evaluator::calculate_diversity;
use mdp_solver::model::{MdpData, SolveError};
use mdp_solver::ratio::Ratio;
use mdp_solver::solver_population::{
    best_index, check_genetic, crossover, crossover_at, evaluate_population, extend_with_missing, fitter_parent,
    initialize_population, local_improvement, make_offspring, mutate, mutate_at, next_generation,
    polish_best, solve_genetic, solve_genetic_with, sort_by_fitness, tournament_selection,
    tournament_winner, GeneticConfig, Individual,
};
use rand::rngs::StdRng;
use rand::SeedableRng;

fn scenario(k: usize) -> MdpData {
    let entries = vec![(0, 1, 1u64), (0, 2, 5), (0, 3, 2), (1, 2, 3), (1, 3, 4), (2, 3, 6)];
    MdpData::from_entries(4, k, &entries).unwrap()
}

fn line(n: usize, k: usize) -> MdpData {
    let mut distances = vec![0u64; n * n];
    for i in 0..n {
        for j in 0..n {
            distances[i * n + j] = (i as i64 - j as i64).unsigned_abs();
        }
    }
    MdpData::new(n, k, distances).unwrap()
}

fn is_valid_selection(selected: &[usize], n: usize, k: usize) -> bool {
    let mut seen = vec![false; n];
    for &e in selected {
        if e >= n || seen[e] {
            return false;
        }
        seen[e] = true;
    }
    selected.len() == k
}

fn individual(selected: Vec<usize>, fitness: u128) -> Individual {
    Individual { selected, fitness }
}

fn fitnesses(population: &[Individual]) -> Vec<u128> {
    population.iter().map(|i| i.fitness).collect()
}

fn config(population_size: usize, generations: usize, elite_size: usize) -> GeneticConfig {
    GeneticConfig {
        population_size,
        generations,
        crossover_rate: Ratio { num: 4, den: 5 },
        mutation_rate: Ratio { num: 1, den: 10 },
        elite_size,
    }
}

#[test]
fn default_genetic_config() {
    let c = GeneticConfig::default();
    assert_eq!(c.population_size, 50);
    assert_eq!(c.generations, 100);
    assert_eq!((c.crossover_rate.num, c.crossover_rate.den), (4, 5));
    assert_eq!((c.mutation_rate.num, c.mutation_rate.den), (1, 10));
    assert_eq!(c.elite_size, 5);
}

#[test]
fn extending_appends_what_is_missing_up_to_the_limit() {
    let mut child = vec![4, 1];
    extend_with_missing(&mut child, &[1, 7, 4, 2, 9], 4);
    assert_eq!(child, vec![4, 1, 7, 2]);
    let mut full = vec![4, 1];
    extend_with_missing(&mut full, &[5, 6], 2);
    assert_eq!(full, vec![4, 1]);
    let mut short = vec![0];
    extend_with_missing(&mut short, &[0, 0, 3, 3], 5);
    assert_eq!(short, vec![0, 3]);
}

#[test]
fn crossover_takes_the_head_of_the_first_parent_and_fills_from_the_second() {
    let child = crossover_at(&[0, 1, 2, 3], &[5, 2, 6, 0], 2, &[9, 8, 7], 4);
    assert_eq!(child, vec![0, 1, 5, 2]);
    let child = crossover_at(&[0, 1, 2, 3], &[5, 2, 6, 0], 1, &[9, 8, 7], 4);
    assert_eq!(child, vec![0, 5, 2, 6]);
    let child = crossover_at(&[0, 1, 2, 3], &[5, 2, 6, 0], 3, &[9, 8, 7], 4);
    assert_eq!(child, vec![0, 1, 2, 5]);
}

#[test]
fn crossover_of_overlapping_parents_is_filled_from_the_fill_order() {
    let child = crossover_at(&[0, 1, 2, 3], &[1, 0, 3, 2], 3, &[2, 7, 0, 5, 4], 4);
    assert_eq!(child, vec![0, 1, 2, 3]);
    let child = crossover_at(&[0, 1, 2, 3], &[1, 0, 2, 3], 2, &[1, 7, 0, 5, 4], 4);
    assert_eq!(child, vec![0, 1, 2, 3]);
    let child = crossover_at(&[0, 1, 2], &[1, 0, 2], 1, &[0, 4, 3], 5);
    assert_eq!(child, vec![0, 1, 2, 4, 3]);
    let child = crossover_at(&[0, 1], &[0, 1], 2, &[1, 0, 5], 3);
    assert_eq!(child, vec![0, 1, 5]);
}

#[test]
fn crossover_gives_k_distinct_elements_for_every_cut_and_parent_pair() {
    let n = 7;
    let k = 4;
    let parents: Vec<Vec<usize>> = vec![
        vec![0, 1, 2, 3],
        vec![3, 2, 1, 0],
        vec![4, 5, 6, 0],
        vec![6, 2, 5, 1],
        vec![1, 3, 5, 6],
    ];
    let fills: Vec<Vec<usize>> = vec![(0..n).collect(), (0..n).rev().collect(), vec![3, 0, 6, 1, 5, 2, 4]];
    for left in &parents {
        for right in &parents {
            for cut in 1..k {
                for fill in &fills {
                    let child = crossover_at(left, right, cut, fill, k);
                    assert!(is_valid_selection(&child, n, k));
                    assert_eq!(&child[..cut], &left[..cut]);
                }
            }
        }
    }
}

#[test]
fn random_crossover_gives_valid_offspring() {
    let data = line(9, 4);
    let mut rng = StdRng::seed_from_u64(1037);
    for _ in 0..100 {
        let child = crossover(&[0, 1, 2, 3], &[2, 3, 0, 1], &data, &mut rng);
        assert!(is_valid_selection(&child, 9, 4));
        assert_eq!(child[0], 0);
        let child = crossover(&[8, 1, 5, 3], &[2, 4, 0, 7], &data, &mut rng);
        assert!(is_valid_selection(&child, 9, 4));
        assert_eq!(child[0], 8);
    }
    let pair = line(3, 2);
    for _ in 0..20 {
        let child = crossover(&[2, 0], &[1, 0], &pair, &mut rng);
        assert_eq!(child, vec![2, 1]);
    }
}

#[test]
fn mutation_removes_one_element_and_appends_another() {
    let mut solution = vec![4, 1, 7];
    mutate_at(&mut solution, 1, 9);
    assert_eq!(solution, vec![4, 7, 9]);
    mutate_at(&mut solution, 2, 9);
    assert_eq!(solution, vec![4, 7, 9]);
    mutate_at(&mut solution, 0, 0);
    assert_eq!(solution, vec![7, 9, 0]);
}

#[test]
fn random_mutation_keeps_the_selection_valid() {
    let data = line(8, 3);
    let mut rng = StdRng::seed_from_u64(1074);
    let mut changed = false;
    for _ in 0..100 {
        let before = vec![5usize, 0, 3];
        let mut solution = before.clone();
        mutate(&mut solution, &data, &mut rng);
        assert!(is_valid_selection(&solution, 8, 3));
        let kept = before.iter().filter(|e| solution.contains(e)).count();
        assert!(kept >= 2);
        assert!(before.contains(&solution[0]) && before.contains(&solution[1]));
        if kept == 2 {
            changed = true;
        }
    }
    assert!(changed);
}

#[test]
fn mutation_of_a_full_selection_puts_the_element_back() {
    let data = line(3, 3);
    let mut rng = StdRng::seed_from_u64(1111);
    for _ in 0..10 {
        let mut solution = vec![2, 0, 1];
        mutate(&mut solution, &data, &mut rng);
        assert!(is_valid_selection(&solution, 3, 3));
    }
}

#[test]
fn mutation_without_any_candidate_appends_what_it_removed() {
    let data = line(1, 1);
    let mut rng = StdRng::seed_from_u64(1148);
    let mut solution = vec![0, 0];
    mutate(&mut solution, &data, &mut rng);
    assert_eq!(solution, vec![0, 0]);
}

#[test]
fn the_population_starts_with_valid_selections_and_no_fitness() {
    let data = line(10, 4);
    let mut rng = StdRng::seed_from_u64(1185);
    let population = initialize_population(&data, 12, &mut rng);
    assert_eq!(population.len(), 12);
    for member in &population {
        assert!(is_valid_selection(&member.selected, 10, 4));
        assert_eq!(member.fitness, 0);
    }
    assert!(initialize_population(&data, 0, &mut rng).is_empty());
}

#[test]
fn evaluation_sets_the_fitness_to_the_diversity() {
    let data = scenario(2);
    let mut population = vec![individual(vec![0, 1], 0), individual(vec![2, 3], 99), individual(vec![2, 0], 0)];
    evaluate_population(&mut population, &data);
    assert_eq!(fitnesses(&population), vec![1, 6, 5]);
    assert_eq!(population[2].selected, vec![2, 0]);
}

#[test]
fn the_tournament_winner_is_the_fittest_and_first_drawn() {
    let population = vec![
        individual(vec![0], 3),
        individual(vec![1], 8),
        individual(vec![2], 8),
        individual(vec![3], 1),
    ];
    assert_eq!(tournament_winner(&population, &vec![0, 3, 0]), 0);
    assert_eq!(tournament_winner(&population, &vec![3, 2, 1]), 2);
    assert_eq!(tournament_winner(&population, &vec![3, 1, 2]), 1);
    assert_eq!(tournament_winner(&population, &vec![3]), 3);
    assert_eq!(tournament_winner(&population, &vec![3, 0, 1]), 1);
}

#[test]
fn a_tournament_returns_a_member_of_the_population() {
    let population = vec![individual(vec![0], 3), individual(vec![1], 8), individual(vec![2], 5)];
    let mut rng = StdRng::seed_from_u64(1222);
    let mut wins = [0usize; 3];
    for _ in 0..300 {
        let winner = tournament_selection(&population, 3, &mut rng);
        assert!(winner < 3);
        wins[winner] += 1;
    }
    assert!(wins[1] > wins[0]);
    for _ in 0..20 {
        assert!(tournament_selection(&population, 0, &mut rng) < 3);
        assert!(tournament_selection(&population, 1, &mut rng) < 3);
    }
    let lone = vec![individual(vec![4], 2)];
    assert_eq!(tournament_selection(&lone, 3, &mut rng), 0);
}

#[test]
fn sorting_puts_the_fittest_first() {
    let mut population = vec![
        individual(vec![0], 3),
        individual(vec![1], 8),
        individual(vec![2], 5),
        individual(vec![3], 8),
        individual(vec![4], 0),
    ];
    sort_by_fitness(&mut population);
    assert_eq!(fitnesses(&population), vec![8, 8, 5, 3, 0]);
    let mut members: Vec<usize> = population.iter().map(|i| i.selected[0]).collect();
    assert_eq!(members, vec![1, 3, 2, 0, 4]);
    members.sort();
    assert_eq!(members, vec![0, 1, 2, 3, 4]);
    let mut empty: Vec<Individual> = vec![];
    sort_by_fitness(&mut empty);
    assert!(empty.is_empty());
    let mut one = vec![individual(vec![7], 2)];
    sort_by_fitness(&mut one);
    assert_eq!(fitnesses(&one), vec![2]);
}

#[test]
fn best_index_is_the_first_of_the_fittest() {
    let population = vec![individual(vec![0], 3), individual(vec![1], 8), individual(vec![2], 8)];
    assert_eq!(best_index(&population), 1);
    assert_eq!(best_index(&vec![individual(vec![0], 0)]), 0);
}

#[test]
fn the_fitter_parent_wins_and_the_first_wins_ties() {
    let population = vec![individual(vec![0], 3), individual(vec![1], 8), individual(vec![2], 8)];
    assert_eq!(fitter_parent(&population, 0, 1), 1);
    assert_eq!(fitter_parent(&population, 1, 0), 1);
    assert_eq!(fitter_parent(&population, 1, 2), 1);
    assert_eq!(fitter_parent(&population, 2, 1), 2);
}

#[test]
fn duplicate_copies_selection_and_fitness() {
    let member = individual(vec![3, 1], 4);
    let copy = member.duplicate();
    assert_eq!(copy.selected, vec![3, 1]);
    assert_eq!(copy.fitness, 4);
}

#[test]
fn polishing_converges_to_a_local_optimum() {
    let data = scenario(2);
    assert_eq!(local_improvement(&[0, 1], &data), (vec![3, 2], 6));
    assert_eq!(local_improvement(&[2, 3], &data), (vec![2, 3], 6));
}

#[test]
fn polish_best_replaces_the_best_only_when_it_improves() {
    let data = scenario(2);
    let mut population = vec![individual(vec![0, 1], 1), individual(vec![0, 2], 5)];
    polish_best(&data, &mut population);
    assert_eq!(fitnesses(&population), vec![1, 6]);
    assert_eq!(population[1].selected, vec![3, 2]);
    polish_best(&data, &mut population);
    assert_eq!(fitnesses(&population), vec![1, 6]);
    assert_eq!(population[1].selected, vec![3, 2]);
}

#[test]
fn offspring_without_crossover_or_mutation_copies_a_parent() {
    let data = scenario(2);
    let population = vec![individual(vec![0, 1], 1), individual(vec![2, 3], 6)];
    let mut c = config(2, 1, 0);
    c.crossover_rate = Ratio { num: 0, den: 7 };
    c.mutation_rate = Ratio { num: 0, den: 3 };
    let mut rng = StdRng::seed_from_u64(1259);
    for _ in 0..50 {
        let child = make_offspring(&data, &c, &population, &mut rng);
        assert!(child.selected == vec![0, 1] || child.selected == vec![2, 3]);
        assert_eq!(child.fitness, calculate_diversity(&child.selected, &data));
    }
}

#[test]
fn offspring_with_certain_crossover_starts_like_a_parent() {
    let data = line(9, 4);
    let population = vec![individual(vec![0, 1, 2, 3], 10), individual(vec![8, 7, 6, 5], 10)];
    let mut c = config(2, 1, 0);
    c.crossover_rate = Ratio { num: 5, den: 5 };
    c.mutation_rate = Ratio { num: 0, den: 1 };
    let mut rng = StdRng::seed_from_u64(1296);
    let mut mixed = false;
    for _ in 0..100 {
        let child = make_offspring(&data, &c, &population, &mut rng);
        assert!(is_valid_selection(&child.selected, 9, 4));
        assert!(child.selected[0] == 0 || child.selected[0] == 8);
        assert_eq!(child.fitness, calculate_diversity(&child.selected, &data));
        if child.selected != vec![0, 1, 2, 3] && child.selected != vec![8, 7, 6, 5] {
            mixed = true;
        }
    }
    assert!(mixed);
}

#[test]
fn offspring_with_certain_mutation_differs_by_at_most_one_element() {
    let data = line(9, 4);
    let population = vec![individual(vec![0, 1, 2, 3], 10)];
    let mut c = config(1, 1, 0);
    c.crossover_rate = Ratio { num: 0, den: 1 };
    c.mutation_rate = Ratio { num: 2, den: 2 };
    let mut rng = StdRng::seed_from_u64(1333);
    let mut changed = 0;
    for _ in 0..60 {
        let child = make_offspring(&data, &c, &population, &mut rng);
        assert!(is_valid_selection(&child.selected, 9, 4));
        let kept = [0usize, 1, 2, 3].iter().filter(|e| child.selected.contains(e)).count();
        assert!(kept >= 3);
        if child.selected != vec![0, 1, 2, 3] {
            changed += 1;
        }
    }
    assert!(changed >= 30);
}

#[test]
fn a_generation_keeps_its_size_and_its_elite() {
    let data = line(10, 3);
    let mut rng = StdRng::seed_from_u64(1370);
    let mut population = initialize_population(&data, 8, &mut rng);
    evaluate_population(&mut population, &data);
    let best_before = population.iter().map(|i| i.fitness).max().unwrap();
    let next = next_generation(&data, &config(8, 1, 2), population, &mut rng);
    assert_eq!(next.len(), 8);
    assert_eq!(next[0].fitness, best_before);
    assert!(next[1].fitness <= next[0].fitness);
    for member in &next {
        assert!(is_valid_selection(&member.selected, 10, 3));
        assert_eq!(member.fitness, calculate_diversity(&member.selected, &data));
    }
}

#[test]
fn a_generation_of_elite_only_is_the_sorted_population() {
    let data = scenario(2);
    let population = vec![individual(vec![0, 1], 1), individual(vec![2, 3], 6), individual(vec![0, 2], 5)];
    let mut rng = StdRng::seed_from_u64(1407);
    let next = next_generation(&data, &config(3, 1, 3), population, &mut rng);
    assert_eq!(fitnesses(&next), vec![6, 5, 1]);
    assert_eq!(next[0].selected, vec![2, 3]);
}

#[test]
fn solve_genetic_returns_a_valid_solution() {
    let data = line(20, 5);
    let (selected, diversity) = solve_genetic(&data, &config(12, 15, 2)).unwrap();
    assert!(is_valid_selection(&selected, 20, 5));
    assert_eq!(diversity, calculate_diversity(&selected, &data));
}

#[test]
fn solve_genetic_finds_the_optimum_of_the_scenario() {
    let data = scenario(2);
    let (selected, diversity) = solve_genetic(&data, &config(10, 11, 1)).unwrap();
    assert_eq!(diversity, 6);
    let mut found = selected;
    found.sort();
    assert_eq!(found, vec![2, 3]);
}

#[test]
fn solve_genetic_handles_a_single_element_selection() {
    let data = line(6, 1);
    let (selected, diversity) = solve_genetic(&data, &config(6, 5, 1)).unwrap();
    assert!(is_valid_selection(&selected, 6, 1));
    assert_eq!(diversity, 0);
}

#[test]
fn solve_genetic_without_generations_returns_the_best_of_the_start() {
    let data = line(8, 8);
    let (selected, diversity) = solve_genetic(&data, &config(3, 0, 0)).unwrap();
    assert!(is_valid_selection(&selected, 8, 8));
    assert_eq!(diversity, calculate_diversity(&selected, &data));
}

#[test]
fn solve_genetic_rejects_invalid_configurations_in_order() {
    let data = scenario(2);
    let none = MdpData { n: 2, k: 0, distances: vec![0, 1, 1, 0] };
    let many = MdpData { n: 2, k: 3, distances: vec![0, 1, 1, 0] };
    let mut bad_rate = config(0, 1, 0);
    bad_rate.mutation_rate = Ratio { num: 2, den: 1 };
    let mut zero_den = config(4, 1, 1);
    zero_den.crossover_rate = Ratio { num: 0, den: 0 };
    assert_eq!(solve_genetic(&none, &bad_rate).err(), Some(SolveError::InvalidSelectionSize));
    assert_eq!(solve_genetic(&many, &config(4, 1, 1)).err(), Some(SolveError::InvalidSelectionSize));
    assert_eq!(solve_genetic(&data, &bad_rate).err(), Some(SolveError::InvalidRatio));
    assert_eq!(solve_genetic(&data, &zero_den).err(), Some(SolveError::InvalidRatio));
    assert_eq!(solve_genetic(&data, &config(0, 1, 0)).err(), Some(SolveError::InvalidPopulation));
    assert_eq!(solve_genetic(&data, &config(3, 1, 4)).err(), Some(SolveError::InvalidPopulation));
    assert!(solve_genetic(&data, &config(3, 1, 3)).is_ok());
}

#[test]
fn a_seeded_genetic_run_can_be_repeated() {
    let data = line(20, 5);
    let first = solve_genetic_with(&data, &config(10, 12, 2), &mut StdRng::seed_from_u64(8)).unwrap();
    let again = solve_genetic_with(&data, &config(10, 12, 2), &mut StdRng::seed_from_u64(8)).unwrap();
    assert_eq!(first, again);
    assert!(is_valid_selection(&first.0, 20, 5));
    assert_eq!(first.1, calculate_diversity(&first.0, &data));
}

#[test]
fn check_genetic_refuses_in_order() {
    let data = scenario(2);
    let many = MdpData { n: 2, k: 3, distances: vec![0, 1, 1, 0] };
    let mut bad_rate = config(0, 1, 0);
    bad_rate.crossover_rate = Ratio { num: 2, den: 1 };
    assert_eq!(check_genetic(&data, &config(3, 0, 3)), Ok(()));
    assert_eq!(check_genetic(&many, &bad_rate), Err(SolveError::InvalidSelectionSize));
    assert_eq!(check_genetic(&data, &bad_rate), Err(SolveError::InvalidRatio));
    assert_eq!(check_genetic(&data, &config(0, 1, 0)), Err(SolveError::InvalidPopulation));
    assert_eq!(check_genetic(&data, &config(2, 1, 3)), Err(SolveError::InvalidPopulation));
}

#[test]
fn offspring_with_certain_crossover_is_never_a_plain_copy_of_disjoint_parents() {
    let data = line(9, 4);
    let population = vec![individual(vec![0, 1, 2, 3], 10)];
    let other = vec![individual(vec![0, 1, 2, 3], 10), individual(vec![8, 7, 6, 5], 10)];
    let mut c = config(2, 1, 0);
    c.crossover_rate = Ratio { num: 3, den: 3 };
    c.mutation_rate = Ratio { num: 0, den: 1 };
    let mut rng = StdRng::seed_from_u64(4242);
    for _ in 0..50 {
        // one parent crossed with itself gives itself back
        let child = make_offspring(&data, &c, &population, &mut rng);
        assert_eq!(child.selected, vec![0, 1, 2, 3]);
        // two disjoint parents give, when the two differ, a head of one and a tail of the other
        let child = make_offspring(&data, &c, &other, &mut rng);
        let head_low = child.selected[0] == 0;
        let tail_low = child.selected[3] <= 3;
        if child.selected != vec![0, 1, 2, 3] && child.selected != vec![8, 7, 6, 5] {
            assert!(head_low != tail_low);
        }
    }
}
