use language_model_edit_prediction::ranges::{check_ends, choose_range, coalesce, surround};
use std::ops::Range;

fn edits(new_rows: &[Range<u32>]) -> Vec<(Range<u32>, Range<u32>)> {
    new_rows.iter().map(|r| (7..9, r.clone())).collect()
}

#[test]
fn overlapping_and_adjacent_ranges_are_merged() {
    assert_eq!(coalesce(&edits(&[1..3, 2..5])), vec![1..5]);
    assert_eq!(coalesce(&edits(&[1..3, 3..4])), vec![1..4]);
    // One row in between is bridged, two are not.
    assert_eq!(coalesce(&edits(&[1..3, 4..5])), vec![1..5]);
    assert_eq!(coalesce(&edits(&[1..3, 5..6])), vec![1..3, 5..6]);
    assert_eq!(coalesce(&edits(&[1..9, 2..3, 12..13])), vec![1..9, 12..13]);
}

#[test]
fn ranges_of_deleted_rows_count_for_nothing() {
    assert_eq!(coalesce(&edits(&[4..4])), vec![]);
    assert_eq!(coalesce(&edits(&[1..2, 3..3, 9..9, 9..10])), vec![1..2, 9..10]);
    assert_eq!(coalesce(&edits(&[])), vec![]);
}

#[test]
fn range_at_the_cursor_is_chosen_or_else_the_last() {
    let ranges = vec![2..4, 8..10, 20..21];
    assert_eq!(choose_range(&ranges, 3), 2..4);
    // A cursor on the row behind a range still touches it.
    assert_eq!(choose_range(&ranges, 4), 2..4);
    assert_eq!(choose_range(&ranges, 10), 8..10);
    assert_eq!(choose_range(&ranges, 5), 20..21);
    assert_eq!(choose_range(&vec![], 5), 0..0);
    // Of two that touch the cursor's row, the first counts.
    assert_eq!(choose_range(&vec![2..4, 4..6], 4), 2..4);
}

#[test]
fn surrounding_rows_stay_within_the_text() {
    assert_eq!(surround(&(10..12), 100), (7, 15));
    assert_eq!(surround(&(1..2), 100), (0, 5));
    assert_eq!(surround(&(10..12), 14), (7, 13));
    assert_eq!(surround(&(0..0), 1), (0, 0));
    // A range past the end of the text leaves nothing to show.
    assert_eq!(surround(&(10..12), 5), (7, 4));
}

#[test]
fn last_row_number_may_end_the_last_range_alone() {
    assert!(check_ends(&edits(&[0..1, 5..u32::MAX])));
    assert!(check_ends(&edits(&[0..u32::MAX, 9..9])));
    assert!(!check_ends(&edits(&[0..u32::MAX, 9..10])));
    assert!(check_ends(&edits(&[])));
    assert_eq!(coalesce(&edits(&[0..1, 5..u32::MAX])), vec![0..1, 5..u32::MAX]);
}
