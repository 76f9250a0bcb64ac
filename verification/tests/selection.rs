use mtdynamic::selection::densest_range_start;

#[test]
fn densest_range_picks_first_sample_of_fullest_range() {
    assert_eq!(densest_range_start(&vec![0, 1, 1, 1, 4], 5), 1);
    assert_eq!(densest_range_start(&vec![0, 0, 0, 2, 4], 5), 0);
    assert_eq!(densest_range_start(&vec![4], 5), 0);
}

#[test]
fn densest_range_ties_go_to_the_last_range() {
    // Ranges 0 and 1 hold two samples each: the later one wins.
    assert_eq!(densest_range_start(&vec![0, 0, 1, 1, 4], 5), 2);
    // All ranges hold one sample: the last range.
    assert_eq!(densest_range_start(&vec![0, 1, 2, 3, 4], 5), 4);
}
