use minigrep::ranges::merge_ranges;

#[test]
fn merge_of_nothing_is_nothing() {
    assert_eq!(merge_ranges(vec![]), vec![]);
}

#[test]
fn touching_spans_merge() {
    assert_eq!(merge_ranges(vec![(0, 2), (2, 5)]), vec![(0, 5)]);
}

#[test]
fn overlapping_unsorted_spans_merge() {
    assert_eq!(
        merge_ranges(vec![(7, 9), (1, 3), (2, 4), (10, 12), (8, 8)]),
        vec![(1, 4), (7, 9), (10, 12)]
    );
}

#[test]
fn contained_span_is_absorbed() {
    assert_eq!(merge_ranges(vec![(0, 10), (2, 3)]), vec![(0, 10)]);
}

#[test]
fn separated_spans_stay_apart() {
    assert_eq!(merge_ranges(vec![(4, 6), (0, 3)]), vec![(0, 3), (4, 6)]);
}

#[test]
fn unordered_input_is_sorted_first() {
    assert_eq!(merge_ranges(vec![(5, 7), (0, 3), (2, 4)]), vec![(0, 4), (5, 7)]);
}

#[test]
fn merge_ignores_input_order_and_is_stable_when_repeated() {
    let a = merge_ranges(vec![(3, 6), (0, 1), (5, 9), (1, 2)]);
    let b = merge_ranges(vec![(1, 2), (5, 9), (0, 1), (3, 6)]);
    assert_eq!(a, vec![(0, 2), (3, 9)]);
    assert_eq!(a, b);
    assert_eq!(merge_ranges(a.clone()), a);
}

#[test]
fn isolated_empty_span_is_kept() {
    assert_eq!(merge_ranges(vec![(0, 1), (3, 3), (5, 6)]), vec![(0, 1), (3, 3), (5, 6)]);
}
