use discrete_mathematics_equivalence::classes::weakly_connected_components;
use discrete_mathematics_equivalence::input::{
    check_row, is_valid_matrix, is_valid_size, RowError, MAX_SIZE, MIN_SIZE,
};
use discrete_mathematics_equivalence::violations::{symmetry_violations, transitivity_violations};
use discrete_mathematics_equivalence::Matrix;

#[test]
fn symmetry_violations_in_row_major_order() {
    let m: Matrix = vec![vec![0, 1, 0], vec![0, 0, 0], vec![1, 1, 0]];
    assert_eq!(symmetry_violations(&m), vec![(0, 1), (0, 2), (1, 0), (1, 2), (2, 0), (2, 1)]);
    let sym: Matrix = vec![vec![1, 1], vec![1, 0]];
    assert_eq!(symmetry_violations(&sym), Vec::<(usize, usize)>::new());
}

#[test]
fn transitivity_violations_in_lexicographic_order() {
    let m: Matrix = vec![vec![0, 1, 0], vec![0, 0, 1], vec![1, 0, 0]];
    assert_eq!(
        transitivity_violations(&m),
        vec![(0, 1, 2), (1, 2, 0), (2, 0, 1)]
    );
    let chain: Matrix = vec![vec![0, 1, 0], vec![0, 0, 1], vec![0, 0, 0]];
    assert_eq!(transitivity_violations(&chain), vec![(0, 1, 2)]);
    let t: Matrix = vec![vec![0, 1, 1], vec![0, 0, 1], vec![0, 0, 0]];
    assert_eq!(transitivity_violations(&t), Vec::<(usize, usize, usize)>::new());
}

#[test]
fn weak_components_ignore_direction() {
    let m: Matrix = vec![
        vec![0, 0, 1, 0, 0],
        vec![0, 0, 0, 0, 0],
        vec![0, 0, 0, 0, 0],
        vec![0, 1, 0, 0, 0],
        vec![0, 0, 0, 1, 0],
    ];
    let expected: Vec<(usize, Vec<usize>)> = vec![(0, vec![0, 2]), (1, vec![1, 3, 4])];
    assert_eq!(weakly_connected_components(&m), expected);
    let empty: Matrix = vec![vec![0, 0], vec![0, 0]];
    let singles: Vec<(usize, Vec<usize>)> = vec![(0, vec![0]), (1, vec![1])];
    assert_eq!(weakly_connected_components(&empty), singles);
}

#[test]
fn sizes_between_bounds_are_accepted() {
    assert_eq!(MIN_SIZE, 2);
    assert_eq!(MAX_SIZE, 10);
    assert!(!is_valid_size(0));
    assert!(!is_valid_size(1));
    assert!(is_valid_size(2));
    assert!(is_valid_size(10));
    assert!(!is_valid_size(11));
}

#[test]
fn rows_are_checked_for_length_and_values() {
    assert_eq!(check_row(&vec![0, 1, 1], 3), Ok(()));
    assert_eq!(check_row(&vec![0, 1], 3), Err(RowError::WrongLength));
    assert_eq!(check_row(&vec![0, 1, 0, 1], 3), Err(RowError::WrongLength));
    assert_eq!(check_row(&vec![0, 2, 1], 3), Err(RowError::NotBinary));
}

#[test]
fn matrices_are_checked_for_shape_and_values() {
    assert!(is_valid_matrix(&vec![vec![0, 1], vec![1, 1]]));
    assert!(!is_valid_matrix(&vec![vec![0, 1], vec![1]]));
    assert!(!is_valid_matrix(&vec![vec![0, 1], vec![1, 3]]));
    assert!(!is_valid_matrix(&vec![vec![0, 1, 0], vec![1, 1, 0]]));
}
