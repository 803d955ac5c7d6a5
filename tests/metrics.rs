use account_name_sim::metrics::{continuity_runs, diff_list, square_sum, tally};

#[test]
fn diffs_over_common_length() {
    assert_eq!(diff_list(&vec![5, 7, 9], &vec![6, 7, 8]), vec![1, 0, 1]);
    assert_eq!(diff_list(&vec![5, 7, 9, 4], &vec![6]), vec![1]);
    assert!(diff_list(&vec![], &vec![6]).is_empty());
}

#[test]
fn runs_decay_without_reset() {
    assert_eq!(continuity_runs(&vec![1, 0, 1]), vec![0, 1, 1]);
    assert_eq!(continuity_runs(&vec![0, 0, 1, 0, 2, 2]), vec![1, 2, 1, 2, 1, 1]);
    assert_eq!(continuity_runs(&vec![0, 0, 0, 5]), vec![1, 2, 3, 2]);
}

#[test]
fn tally_counts_in_first_order() {
    assert_eq!(tally(&vec![5, 7, 5]), vec![(5, 2), (7, 1)]);
    assert_eq!(tally(&vec![5, 7, 9]), vec![(5, 1), (7, 1), (9, 1)]);
    assert!(tally(&vec![]).is_empty());
}

#[test]
fn square_sums() {
    assert_eq!(square_sum(3), 14);
    assert_eq!(square_sum(0), 0);
    assert_eq!(square_sum(1), 1);
}
