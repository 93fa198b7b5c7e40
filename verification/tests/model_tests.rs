use mdp_solver::model::{MdpData, ModelError, SolveError};

#[test]
fn get_dist_reads_row_major() {
    let data = MdpData { n: 2, k: 1, distances: vec![0, 7, 7, 0] };
    assert_eq!(data.get_dist(0, 1), 7);
    assert_eq!(data.get_dist(1, 0), 7);
    assert_eq!(data.get_dist(1, 1), 0);
}

#[test]
fn new_accepts_a_symmetric_matrix() {
    let data = MdpData::new(3, 2, vec![0, 1, 2, 1, 0, 3, 2, 3, 0]).unwrap();
    assert_eq!(data.n, 3);
    assert_eq!(data.k, 2);
    assert_eq!(data.get_dist(1, 2), 3);
    assert!(data.is_valid());
}

#[test]
fn new_rejects_zero_k() {
    assert_eq!(MdpData::new(2, 0, vec![0, 1, 1, 0]).err(), Some(ModelError::InvalidSelectionSize));
}

#[test]
fn new_rejects_k_above_n() {
    assert_eq!(MdpData::new(2, 3, vec![0, 1, 1, 0]).err(), Some(ModelError::InvalidSelectionSize));
}

#[test]
fn new_accepts_k_equal_to_n() {
    assert!(MdpData::new(2, 2, vec![0, 1, 1, 0]).is_ok());
}

#[test]
fn new_rejects_a_size_whose_square_overflows() {
    assert_eq!(MdpData::new(usize::MAX, 1, vec![]).err(), Some(ModelError::TooLarge));
}

#[test]
fn new_rejects_a_matrix_of_the_wrong_length() {
    assert_eq!(MdpData::new(2, 1, vec![0, 1, 1]).err(), Some(ModelError::WrongLength));
}

#[test]
fn new_rejects_an_asymmetric_matrix() {
    assert_eq!(MdpData::new(2, 1, vec![0, 1, 2, 0]).err(), Some(ModelError::NotSymmetric));
}

#[test]
fn is_valid_tells_shape_and_symmetry() {
    assert!(MdpData { n: 2, k: 1, distances: vec![0, 4, 4, 9] }.is_valid());
    assert!(!MdpData { n: 2, k: 1, distances: vec![0, 4, 5, 0] }.is_valid());
    assert!(!MdpData { n: 2, k: 1, distances: vec![0, 4, 4] }.is_valid());
    assert!(MdpData { n: 0, k: 0, distances: vec![] }.is_valid());
}

#[test]
fn from_entries_fills_both_directions() {
    let data = MdpData::from_entries(3, 2, &vec![(0, 2, 9), (1, 0, 4)]).unwrap();
    assert_eq!(data.distances, vec![0, 4, 9, 4, 0, 0, 9, 0, 0]);
    assert!(data.is_valid());
}

#[test]
fn from_entries_lets_the_later_entry_count() {
    let data = MdpData::from_entries(2, 1, &vec![(0, 1, 3), (1, 0, 8)]).unwrap();
    assert_eq!(data.get_dist(0, 1), 8);
    assert_eq!(data.get_dist(1, 0), 8);
}

#[test]
fn from_entries_without_entries_is_all_zero() {
    let data = MdpData::from_entries(2, 2, &vec![]).unwrap();
    assert_eq!(data.distances, vec![0, 0, 0, 0]);
}

#[test]
fn from_entries_rejects_an_entry_outside_the_instance() {
    assert_eq!(
        MdpData::from_entries(2, 1, &vec![(0, 1, 3), (0, 2, 1)]).err(),
        Some(ModelError::EntryOutOfRange)
    );
    assert_eq!(
        MdpData::from_entries(2, 1, &vec![(5, 1, 3)]).err(),
        Some(ModelError::EntryOutOfRange)
    );
}

#[test]
fn from_entries_rejects_an_invalid_k_first() {
    assert_eq!(
        MdpData::from_entries(2, 0, &vec![(0, 9, 3)]).err(),
        Some(ModelError::InvalidSelectionSize)
    );
    assert_eq!(
        MdpData::from_entries(2, 3, &vec![]).err(),
        Some(ModelError::InvalidSelectionSize)
    );
}

#[test]
fn from_entries_rejects_a_size_whose_square_overflows() {
    assert_eq!(MdpData::from_entries(usize::MAX, 1, &vec![]).err(), Some(ModelError::TooLarge));
}

#[test]
fn check_feasible_refuses_zero_and_too_large_k() {
    assert_eq!(MdpData { n: 3, k: 1, distances: vec![0; 9] }.check_feasible(), Ok(()));
    assert_eq!(MdpData { n: 3, k: 3, distances: vec![0; 9] }.check_feasible(), Ok(()));
    assert_eq!(
        MdpData { n: 3, k: 0, distances: vec![0; 9] }.check_feasible(),
        Err(SolveError::InvalidSelectionSize)
    );
    assert_eq!(
        MdpData { n: 3, k: 4, distances: vec![0; 9] }.check_feasible(),
        Err(SolveError::InvalidSelectionSize)
    );
}
