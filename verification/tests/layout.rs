use lau_signal_processing_agents::kalman::vecs_to_column_major;

#[test]
fn column_major_layout_of_a_full_matrix() {
    let rows = vec![vec![1.0, 2.0, 3.0], vec![4.0, 5.0, 6.0]];
    assert_eq!(vecs_to_column_major(&rows, 2, 3, 0.0), vec![1.0, 4.0, 2.0, 5.0, 3.0, 6.0]);
}

#[test]
fn column_major_layout_fills_missing_entries() {
    let rows = vec![vec![1, 2], vec![3]];
    // Three rows and three columns asked for: the short and missing rows are filled.
    assert_eq!(vecs_to_column_major(&rows, 3, 3, 0), vec![1, 3, 0, 2, 0, 0, 0, 0, 0]);
}

#[test]
fn column_major_layout_truncates_extra_entries() {
    let rows = vec![vec![1, 2, 3], vec![4, 5, 6], vec![7, 8, 9]];
    assert_eq!(vecs_to_column_major(&rows, 2, 2, 0), vec![1, 4, 2, 5]);
    assert!(vecs_to_column_major(&rows, 0, 5, 0).is_empty());
    assert!(vecs_to_column_major(&rows, 5, 0, 0).is_empty());
}

#[test]
fn column_major_layout_of_a_scalar() {
    let rows = vec![vec![2.5]];
    assert_eq!(vecs_to_column_major(&rows, 1, 1, 0.0), vec![2.5]);
}
