use int_rle::{IntRle, RleError};

fn rle(lengths: Vec<i32>, values: Vec<i32>) -> IntRle {
    IntRle::new(lengths, values).expect("a valid run list")
}

#[test]
fn neighbouring_runs_of_one_value_are_merged() {
    let r = rle(vec![1, 2, 3], vec![5, 5, 7]);
    assert_eq!(r.lengths, vec![3, 3]);
    assert_eq!(r.values, vec![5, 7]);
}

#[test]
fn a_single_run_is_returned_as_given() {
    let r = rle(vec![4], vec![9]);
    assert_eq!(r, IntRle { lengths: vec![4], values: vec![9] });
}

#[test]
fn runs_that_differ_from_their_neighbours_are_kept() {
    let r = rle(vec![2, 1, 5], vec![7, 8, 7]);
    assert_eq!(r, IntRle { lengths: vec![2, 1, 5], values: vec![7, 8, 7] });
}

#[test]
fn runs_of_one_value_throughout_become_one_run() {
    let r = rle(vec![1, 2, 3, 4], vec![6, 6, 6, 6]);
    assert_eq!(r, IntRle { lengths: vec![10], values: vec![6] });
}

#[test]
fn two_runs_of_one_value_become_one_run() {
    let r = rle(vec![2, 5], vec![-3, -3]);
    assert_eq!(r, IntRle { lengths: vec![7], values: vec![-3] });
}

#[test]
fn merging_happens_at_the_start_in_the_middle_and_at_the_end() {
    let r = rle(vec![1, 1, 4, 2, 2, 3, 3], vec![0, 0, 1, 2, 2, 9, 9]);
    assert_eq!(r, IntRle { lengths: vec![2, 4, 4, 6], values: vec![0, 1, 2, 9] });
}

#[test]
fn equal_values_that_are_not_neighbours_stay_apart() {
    let r = rle(vec![1, 1, 1, 1], vec![4, 5, 4, 5]);
    assert_eq!(r, IntRle { lengths: vec![1, 1, 1, 1], values: vec![4, 5, 4, 5] });
}

#[test]
fn the_last_run_is_closed_when_it_differs() {
    let r = rle(vec![3, 3, 1], vec![2, 2, 8]);
    assert_eq!(r, IntRle { lengths: vec![6, 1], values: vec![2, 8] });
}

#[test]
fn extreme_values_are_ordinary_values() {
    let r = rle(vec![1, 1, 2], vec![i32::MIN, i32::MIN, i32::MAX]);
    assert_eq!(r, IntRle { lengths: vec![2, 2], values: vec![i32::MIN, i32::MAX] });
}

#[test]
fn lengths_may_add_up_to_the_largest_i32() {
    let r = rle(vec![i32::MAX - 1, 1], vec![5, 5]);
    assert_eq!(r, IntRle { lengths: vec![i32::MAX], values: vec![5] });
    assert_eq!(r.total_length(), i32::MAX);
}

#[test]
fn normalizing_a_normalized_sequence_changes_nothing() {
    let once = rle(vec![1, 2, 3, 1, 1], vec![5, 5, 7, 5, 5]);
    let twice = rle(once.lengths.to_vec(), once.values.to_vec());
    assert_eq!(once, IntRle { lengths: vec![3, 3, 2], values: vec![5, 7, 5] });
    assert_eq!(twice, once);
}

#[test]
fn normalizing_keeps_the_array() {
    let raw = IntRle { lengths: vec![1, 2, 3, 1], values: vec![5, 5, 7, 7] };
    let r = rle(vec![1, 2, 3, 1], vec![5, 5, 7, 7]);
    assert_eq!(raw.decode(), vec![5, 5, 5, 7, 7, 7, 7]);
    assert_eq!(r.decode(), raw.decode());
    assert_eq!(r.total_length(), 7);
}

#[test]
fn normalized_sequences_have_no_equal_neighbours() {
    let r = rle(vec![1, 1, 1, 2, 2, 1], vec![3, 3, 4, 4, 3, 3]);
    assert_eq!(r, IntRle { lengths: vec![2, 3, 3], values: vec![3, 4, 3] });
    for i in 1..r.values.len() {
        assert_ne!(r.values[i - 1], r.values[i]);
    }
    assert!(r.is_valid());
}

#[test]
fn two_empty_arrays_are_refused_as_empty_input() {
    assert_eq!(IntRle::new(vec![], vec![]), Err(RleError::EmptyInput));
}

#[test]
fn arrays_of_different_sizes_are_refused_as_a_mismatch() {
    assert_eq!(IntRle::new(vec![1, 2], vec![5]), Err(RleError::LengthMismatch));
    assert_eq!(IntRle::new(vec![1], vec![5, 6]), Err(RleError::LengthMismatch));
}

#[test]
fn one_empty_array_beside_a_filled_one_is_a_mismatch() {
    assert_eq!(IntRle::new(vec![], vec![5]), Err(RleError::LengthMismatch));
    assert_eq!(IntRle::new(vec![3], vec![]), Err(RleError::LengthMismatch));
}
