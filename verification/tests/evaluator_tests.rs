use mdp_solver::evaluator::{calculate_diversity, calculate_marginal_contribution, calculate_swap_gain};
use mdp_solver::model::MdpData;

fn four_point_instance(k: usize) -> MdpData {
    let entries = vec![(0, 1, 1u64), (0, 2, 5), (0, 3, 2), (1, 2, 3), (1, 3, 4), (2, 3, 6)];
    MdpData::from_entries(4, k, &entries).unwrap()
}

fn line_instance(n: usize, k: usize) -> MdpData {
    let mut distances = vec![0u64; n * n];
    for i in 0..n {
        for j in 0..n {
            distances[i * n + j] = (i as i64 - j as i64).unsigned_abs();
        }
    }
    MdpData::new(n, k, distances).unwrap()
}

#[test]
fn diversity_sums_every_pair_once() {
    let data = four_point_instance(3);
    assert_eq!(calculate_diversity(&[0, 1, 2], &data), 1 + 5 + 3);
    assert_eq!(calculate_diversity(&[2, 3], &data), 6);
    assert_eq!(calculate_diversity(&[0, 1, 2, 3], &data), 21);
}

#[test]
fn diversity_of_fewer_than_two_elements_is_zero() {
    let data = four_point_instance(1);
    assert_eq!(calculate_diversity(&[], &data), 0);
    assert_eq!(calculate_diversity(&[1], &data), 0);
}

#[test]
fn diversity_does_not_depend_on_order() {
    let data = four_point_instance(3);
    assert_eq!(calculate_diversity(&[3, 0, 2], &data), calculate_diversity(&[0, 2, 3], &data));
    assert_eq!(calculate_diversity(&[3, 0, 2], &data), 13);
}

#[test]
fn marginal_contribution_sums_distances_to_members() {
    let data = four_point_instance(3);
    assert_eq!(calculate_marginal_contribution(3, &[0, 1, 2], &data), 2 + 4 + 6);
    assert_eq!(calculate_marginal_contribution(0, &[2], &data), 5);
    assert_eq!(calculate_marginal_contribution(3, &[], &data), 0);
}

#[test]
fn swap_gain_matches_recomputed_diversity() {
    let data = four_point_instance(2);
    let before = calculate_diversity(&[0, 1], &data) as i128;
    let after = calculate_diversity(&[0, 2], &data) as i128;
    assert_eq!(calculate_swap_gain(1, 2, &[0, 1], &data), after - before);
    assert_eq!(calculate_swap_gain(1, 2, &[0, 1], &data), 4);
    assert_eq!(calculate_swap_gain(0, 3, &[0, 1], &data), 3);
}

#[test]
fn swap_gain_can_be_negative() {
    let data = four_point_instance(2);
    assert_eq!(calculate_swap_gain(3, 0, &[2, 3], &data), -1);
    assert_eq!(calculate_swap_gain(2, 1, &[2, 3], &data), -2);
}

#[test]
fn swap_gain_identity_holds_for_every_swap_of_a_larger_instance() {
    let data = line_instance(9, 4);
    let selected = [7usize, 2, 5, 0];
    let base = calculate_diversity(&selected, &data) as i128;
    for position in 0..selected.len() {
        for entering in 0..data.n {
            if selected.contains(&entering) {
                continue;
            }
            let mut swapped = selected;
            swapped[position] = entering;
            let gain = calculate_swap_gain(selected[position], entering, &selected, &data);
            assert_eq!(base + gain, calculate_diversity(&swapped, &data) as i128);
        }
    }
}

#[test]
fn tracked_diversity_follows_a_sequence_of_swaps() {
    let data = line_instance(12, 4);
    let mut selected = vec![0usize, 1, 2, 3];
    let mut running = calculate_diversity(&selected, &data) as i128;
    assert_eq!(running, 10);
    let swaps = [(0usize, 11usize), (2, 7), (1, 0), (3, 5), (0, 9), (2, 11)];
    for (position, entering) in swaps {
        assert!(!selected.contains(&entering));
        running += calculate_swap_gain(selected[position], entering, &selected, &data);
        selected[position] = entering;
        assert_eq!(running, calculate_diversity(&selected, &data) as i128);
    }
    assert_eq!(selected, vec![9, 0, 11, 5]);
    assert_eq!(running, 9 + 2 + 4 + 11 + 5 + 6);
}
