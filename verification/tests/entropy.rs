use entropy_production::entropy::observation_counts;

#[test]
fn counts_from_correlated_observations() {
    let x = vec![0, 1, 0, 1];
    let y = vec![0, 1, 0, 1];
    let counts = observation_counts(&x, &y, 2, 2);
    assert_eq!(counts, vec![vec![2, 0], vec![0, 2]]);
}

#[test]
fn out_of_range_observations_are_skipped() {
    let x = vec![0, 5, 1, 1];
    let y = vec![2, 0, 9, 0];
    let counts = observation_counts(&x, &y, 2, 3);
    assert_eq!(counts, vec![vec![0, 0, 1], vec![1, 0, 0]]);
}

#[test]
fn unpaired_tail_is_ignored() {
    let x = vec![0, 1, 1, 1, 1];
    let y = vec![1, 0];
    let counts = observation_counts(&x, &y, 2, 2);
    assert_eq!(counts, vec![vec![0, 1], vec![1, 0]]);
}

#[test]
fn empty_table_shapes() {
    assert_eq!(observation_counts(&[0, 1], &[0, 1], 0, 4), Vec::<Vec<usize>>::new());
    assert_eq!(observation_counts(&[0, 1], &[0, 1], 2, 0), vec![Vec::<usize>::new(), Vec::new()]);
    assert_eq!(observation_counts(&[], &[], 1, 1), vec![vec![0]]);
}

#[test]
fn total_count_equals_in_range_pairs() {
    let x = vec![0, 1, 2, 0, 3, 1];
    let y = vec![1, 1, 0, 4, 0, 0];
    let counts = observation_counts(&x, &y, 3, 2);
    let total: usize = counts.iter().map(|row| row.iter().sum::<usize>()).sum();
    let in_range = x.iter().zip(y.iter()).filter(|(a, b)| **a < 3 && **b < 2).count();
    assert_eq!(total, in_range);
    assert_eq!(total, 4);
}

