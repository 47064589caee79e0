use discrete_mathematics_equivalence::classes::{all_equivalence_classes, get_equivalence_class};
use discrete_mathematics_equivalence::closure::{
    full_closure, reflexive_closure, symmetric_closure, transitive_closure,
};
use discrete_mathematics_equivalence::equivalence::{
    analyze_properties, classify, is_antisymmetric, is_connected_relation, is_equivalence_relation,
    is_irreflexive, is_reflexive, is_symmetric, is_transitive, PropertyReport, RelationClass,
};
use discrete_mathematics_equivalence::Matrix;

fn filled(n: usize, v: u8) -> Matrix {
    vec![vec![v; n]; n]
}

fn contains_cells(big: &Matrix, small: &Matrix) -> bool {
    for i in 0..small.len() {
        for j in 0..small.len() {
            if small[i][j] == 1 && big[i][j] != 1 {
                return false;
            }
        }
    }
    true
}

#[test]
fn zero_matrices_have_expected_properties() {
    for n in 2..=10 {
        let m = filled(n, 0);
        assert!(!is_reflexive(&m));
        assert!(is_symmetric(&m));
        assert!(is_transitive(&m));
        assert!(is_irreflexive(&m));
        assert!(is_antisymmetric(&m));
        assert!(!is_connected_relation(&m));
        assert!(!is_equivalence_relation(&m));
    }
}

#[test]
fn ones_matrices_have_expected_properties() {
    for n in 2..=10 {
        let m = filled(n, 1);
        assert!(is_reflexive(&m));
        assert!(is_symmetric(&m));
        assert!(is_transitive(&m));
        assert!(is_connected_relation(&m));
        assert!(is_equivalence_relation(&m));
        assert!(!is_irreflexive(&m));
        assert!(!is_antisymmetric(&m));
        let classes = all_equivalence_classes(&m);
        assert_eq!(classes.len(), 1);
        assert_eq!(classes[0].0, 0);
        assert_eq!(classes[0].1, (0..n).collect::<Vec<usize>>());
    }
}

#[test]
fn closures_are_idempotent() {
    let m: Matrix = vec![vec![0, 1, 0, 0], vec![0, 0, 1, 0], vec![0, 0, 0, 0], vec![1, 0, 0, 0]];
    let r = reflexive_closure(&m);
    assert_eq!(reflexive_closure(&r), r);
    let s = symmetric_closure(&m);
    assert_eq!(symmetric_closure(&s), s);
    let t = transitive_closure(&m);
    assert_eq!(transitive_closure(&t), t);
}

#[test]
fn transitive_closure_contains_original() {
    let m: Matrix = vec![vec![0, 1, 0], vec![0, 0, 1], vec![1, 0, 0]];
    let t = transitive_closure(&m);
    assert!(contains_cells(&t, &m));
    assert_eq!(t, filled(3, 1));
}

#[test]
fn transitive_closure_is_transitive() {
    let m: Matrix = vec![
        vec![0, 1, 0, 0, 0],
        vec![0, 0, 1, 0, 0],
        vec![0, 0, 0, 1, 0],
        vec![0, 0, 0, 0, 0],
        vec![0, 0, 0, 1, 0],
    ];
    assert!(!is_transitive(&m));
    let t = transitive_closure(&m);
    assert!(is_transitive(&t));
    let expected: Matrix = vec![
        vec![0, 1, 1, 1, 0],
        vec![0, 0, 1, 1, 0],
        vec![0, 0, 0, 1, 0],
        vec![0, 0, 0, 0, 0],
        vec![0, 0, 0, 1, 0],
    ];
    assert_eq!(t, expected);
}

#[test]
fn transitive_closure_follows_chains_against_index_order() {
    // 3 -> 2 -> 1 -> 0: each link is found through a higher intermediate first.
    let m: Matrix = vec![vec![0, 0, 0, 0], vec![1, 0, 0, 0], vec![0, 1, 0, 0], vec![0, 0, 1, 0]];
    let expected: Matrix =
        vec![vec![0, 0, 0, 0], vec![1, 0, 0, 0], vec![1, 1, 0, 0], vec![1, 1, 1, 0]];
    assert_eq!(transitive_closure(&m), expected);
}

#[test]
fn closures_leave_input_untouched() {
    let m: Matrix = vec![vec![0, 1], vec![0, 0]];
    let copy = m.clone();
    let _ = reflexive_closure(&m);
    let _ = symmetric_closure(&m);
    let _ = transitive_closure(&m);
    let _ = full_closure(&m);
    assert_eq!(m, copy);
}

#[test]
fn equivalence_classes_partition_the_set() {
    let m: Matrix = vec![
        vec![1, 0, 1, 0, 0],
        vec![0, 1, 0, 0, 1],
        vec![1, 0, 1, 0, 0],
        vec![0, 0, 0, 1, 0],
        vec![0, 1, 0, 0, 1],
    ];
    assert!(is_equivalence_relation(&m));
    let classes = all_equivalence_classes(&m);
    let expected: Vec<(usize, Vec<usize>)> = vec![(0, vec![0, 2]), (1, vec![1, 4]), (3, vec![3])];
    assert_eq!(classes, expected);
    let mut seen = vec![0u32; 5];
    for (_, class) in &classes {
        for &x in class {
            seen[x] += 1;
        }
    }
    assert_eq!(seen, vec![1, 1, 1, 1, 1]);
}

#[test]
fn scenario_equivalence_with_two_classes() {
    let m: Matrix = vec![vec![1, 1, 0], vec![1, 1, 0], vec![0, 0, 1]];
    assert!(is_reflexive(&m));
    assert!(is_symmetric(&m));
    assert!(is_transitive(&m));
    assert!(is_equivalence_relation(&m));
    let classes = all_equivalence_classes(&m);
    let expected: Vec<(usize, Vec<usize>)> = vec![(0, vec![0, 1]), (2, vec![2])];
    assert_eq!(classes, expected);
    assert_eq!(classify(&m), vec![RelationClass::Equivalence]);
}

#[test]
fn scenario_single_arrow() {
    let m: Matrix = vec![vec![0, 1], vec![0, 0]];
    assert!(!is_reflexive(&m));
    assert!(!is_symmetric(&m));
    assert!(is_antisymmetric(&m));
    assert!(is_transitive(&m));
    assert_eq!(reflexive_closure(&m), vec![vec![1, 1], vec![0, 1]]);
    assert_eq!(symmetric_closure(&m), vec![vec![0, 1], vec![1, 0]]);
    let full = full_closure(&m);
    assert_eq!(full, vec![vec![1, 1], vec![1, 1]]);
    assert!(is_equivalence_relation(&full));
    let classes = all_equivalence_classes(&full);
    let expected: Vec<(usize, Vec<usize>)> = vec![(0, vec![0, 1])];
    assert_eq!(classes, expected);
}

#[test]
fn scenario_total_order() {
    let m: Matrix = vec![vec![1, 0], vec![1, 1]];
    assert!(is_antisymmetric(&m));
    assert!(is_transitive(&m));
    assert!(is_reflexive(&m));
    assert!(is_connected_relation(&m));
    let labels = classify(&m);
    assert!(labels.contains(&RelationClass::PartialOrder));
    assert!(labels.contains(&RelationClass::TotalOrder));
    assert_eq!(labels, vec![RelationClass::PartialOrder, RelationClass::TotalOrder]);
}

#[test]
fn classify_empty_relation_keeps_strict_partial_order_rule() {
    let m = filled(3, 0);
    assert_eq!(
        classify(&m),
        vec![
            RelationClass::PartialOrder,
            RelationClass::StrictPartialOrder,
            RelationClass::LinearOrder
        ]
    );
}

#[test]
fn classify_strict_order() {
    let m: Matrix = vec![vec![0, 1, 1], vec![0, 0, 1], vec![0, 0, 0]];
    assert_eq!(classify(&m), vec![RelationClass::PartialOrder, RelationClass::LinearOrder]);
    let m2: Matrix = vec![vec![0, 1, 0], vec![0, 0, 1], vec![0, 0, 0]];
    assert_eq!(classify(&m2), Vec::<RelationClass>::new());
}

#[test]
fn property_report_lists_all_six() {
    let m: Matrix = vec![vec![1, 1, 0], vec![0, 1, 0], vec![0, 1, 1]];
    let report = analyze_properties(&m);
    let expected = PropertyReport {
        reflexive: true,
        symmetric: false,
        transitive: true,
        antisymmetric: true,
        irreflexive: false,
        connected: false,
    };
    assert_eq!(report, expected);
}

#[test]
fn mixed_diagonal_is_neither_reflexive_nor_irreflexive() {
    let m: Matrix = vec![vec![1, 0], vec![0, 0]];
    assert!(!is_reflexive(&m));
    assert!(!is_irreflexive(&m));
    assert!(is_symmetric(&m));
    assert!(!is_connected_relation(&m));
}

#[test]
fn equivalence_class_of_element_is_its_row() {
    let m: Matrix = vec![vec![1, 0, 1, 1], vec![0, 1, 0, 0], vec![1, 0, 1, 1], vec![1, 0, 1, 1]];
    assert_eq!(get_equivalence_class(&m, 0), vec![0, 2, 3]);
    assert_eq!(get_equivalence_class(&m, 1), vec![1]);
    assert_eq!(get_equivalence_class(&m, 3), vec![0, 2, 3]);
    assert_eq!(get_equivalence_class(&filled(2, 0), 1), Vec::<usize>::new());
}

#[test]
fn symmetric_closure_mirrors_cells() {
    let m: Matrix = vec![vec![0, 1, 0], vec![0, 0, 0], vec![1, 1, 0]];
    let expected: Matrix = vec![vec![0, 1, 1], vec![1, 0, 1], vec![1, 1, 0]];
    let s = symmetric_closure(&m);
    assert_eq!(s, expected);
    assert!(is_symmetric(&s));
}

#[test]
fn largest_size_full_closure_of_cycle() {
    let n = 10;
    let mut m = filled(n, 0);
    for i in 0..n {
        m[i][(i + 1) % n] = 1;
    }
    assert_eq!(transitive_closure(&m), filled(n, 1));
    assert_eq!(full_closure(&m), filled(n, 1));
}
