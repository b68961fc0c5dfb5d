use boolean_evaluation::powerset::powerset;

#[test]
fn test_none() {
    assert_eq!(powerset(&[]), vec![vec![]]);
}

#[test]
fn test_one() {
    assert_eq!(powerset(&[1]), vec![vec![], vec![1]]);
}

#[test]
fn test_two() {
    assert_eq!(powerset(&[1, 2]), vec![vec![], vec![1], vec![2], vec![1, 2],]);
}

#[test]
fn test_three() {
    assert_eq!(
        powerset(&[1, 2, 3]),
        vec![
            vec![],
            vec![1],
            vec![2],
            vec![1, 2],
            vec![3],
            vec![1, 3],
            vec![2, 3],
            vec![1, 2, 3],
        ]
    );
}

#[test]
fn powerset_keeps_repeated_elements_apart() {
    assert_eq!(powerset(&[5, 5]), vec![vec![], vec![5], vec![5], vec![5, 5]]);
    assert_eq!(powerset(&[0; 10]).len(), 1024);
}
