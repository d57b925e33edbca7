use lib::subset_sums::{longest_reachable_interval, reachable_subset_sums};

#[test]
fn subset_sums_of_two_and_three() {
    assert_eq!(reachable_subset_sums(&[2, 3]), vec![1, 0, 1, 1, 0, 1]);
}

#[test]
fn subset_sums_of_nothing_is_zero_only() {
    assert_eq!(reachable_subset_sums(&[]), vec![1]);
}

#[test]
fn subset_sums_use_each_value_once() {
    let table = reachable_subset_sums(&[5, 5]);
    assert_eq!(table, vec![1, 0, 0, 0, 0, 1, 0, 0, 0, 0, 1]);
}

#[test]
fn interval_extension_on_small_values() {
    // [1, 2] covers [0, 3]; 4 <= 3 - 0 + 1, so [1, 2, 4] covers [0, 7].
    let before = reachable_subset_sums(&[1, 2]);
    assert!(before.iter().all(|&f| f == 1));
    let after = reachable_subset_sums(&[1, 2, 4]);
    assert_eq!(after.len(), 8);
    assert!(after.iter().all(|&f| f == 1));
    // 5 > 3 - 0 + 1 leaves a gap at 4.
    let gap = reachable_subset_sums(&[1, 2, 5]);
    assert_eq!(gap[4], 0);
}

#[test]
fn longest_run_of_nonzero_entries() {
    assert_eq!(longest_reachable_interval(&[0, 1, 1, 0, 1, 1, 1, 0]), (4, 6));
    assert_eq!(longest_reachable_interval(&[1, 1, 1]), (0, 2));
}

#[test]
fn longest_run_ties_go_to_the_first() {
    assert_eq!(longest_reachable_interval(&[1, 1, 0, 1, 1]), (0, 1));
    assert_eq!(longest_reachable_interval(&[0, 2, 0, 7]), (1, 1));
}

#[test]
fn longest_run_of_nothing() {
    assert_eq!(longest_reachable_interval(&[0, 0]), (0, 0));
    assert_eq!(longest_reachable_interval(&[]), (0, 0));
}
