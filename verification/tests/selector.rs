//! The slice-selection grammar against concrete expressions.

use mupattern::slices::{parse_slice_string, slice_indices, SelectorError};

#[test]
fn all_selects_full_range() {
    let r = parse_slice_string("all", 12).unwrap();
    assert_eq!(r, (0..12).collect::<Vec<usize>>());
}

#[test]
fn all_is_case_insensitive_and_trimmed() {
    let r = parse_slice_string("  ALL ", 3).unwrap();
    assert_eq!(r, vec![0, 1, 2]);
}

#[test]
fn range_and_single_index() {
    let r = parse_slice_string("0:5,10", 12).unwrap();
    assert_eq!(r, vec![0, 1, 2, 3, 4, 10]);
}

#[test]
fn negative_index_counts_from_end() {
    let r = parse_slice_string("-1", 5).unwrap();
    assert_eq!(r, vec![4]);
}

#[test]
fn stepped_range() {
    let r = parse_slice_string("0:10:2", 12).unwrap();
    assert_eq!(r, vec![0, 2, 4, 6, 8]);
}

#[test]
fn negative_step_runs_downward() {
    let r = parse_slice_string("4:0:-1", 5).unwrap();
    assert_eq!(r, vec![1, 2, 3, 4]);
}

#[test]
fn negative_step_without_stop_reaches_zero() {
    let r = parse_slice_string("4::-1", 5).unwrap();
    assert_eq!(r, vec![0, 1, 2, 3, 4]);
}

#[test]
fn duplicates_collapse_and_sort() {
    let r = parse_slice_string("3,1,1,2", 5).unwrap();
    assert_eq!(r, vec![1, 2, 3]);
}

#[test]
fn blank_segments_are_skipped() {
    let r = parse_slice_string("1,,2", 5).unwrap();
    assert_eq!(r, vec![1, 2]);
}

#[test]
fn omitted_endpoints_default_to_full_extent() {
    let r = parse_slice_string(":", 4).unwrap();
    assert_eq!(r, vec![0, 1, 2, 3]);
}

#[test]
fn endpoints_clamp_to_length() {
    let r = parse_slice_string("2:100", 6).unwrap();
    assert_eq!(r, vec![2, 3, 4, 5]);
}

#[test]
fn zero_step_is_an_error() {
    let e = parse_slice_string("0:5:0", 12).unwrap_err();
    assert_eq!(e, SelectorError::ZeroStep { segment: 0 });
}

#[test]
fn malformed_segment_is_an_error() {
    let e = parse_slice_string("abc", 12).unwrap_err();
    assert_eq!(e, SelectorError::BadSegment { segment: 0 });
}

#[test]
fn malformed_range_component_is_an_error() {
    let e = parse_slice_string("1,0:x", 12).unwrap_err();
    assert_eq!(e, SelectorError::BadSegment { segment: 1 });
}

#[test]
fn too_many_range_components_is_an_error() {
    let e = parse_slice_string("0:1:2:3", 12).unwrap_err();
    assert_eq!(e, SelectorError::BadSegment { segment: 0 });
}

#[test]
fn out_of_range_index_is_an_error() {
    let e = parse_slice_string("7", 5).unwrap_err();
    assert_eq!(e, SelectorError::OutOfRange { segment: 0 });
    let e = parse_slice_string("-6", 5).unwrap_err();
    assert_eq!(e, SelectorError::OutOfRange { segment: 0 });
}

#[test]
fn empty_length_rejects_any_index() {
    let e = parse_slice_string("0", 0).unwrap_err();
    assert_eq!(e, SelectorError::OutOfRange { segment: 0 });
}

#[test]
fn slice_indices_normalizes_like_a_bounded_slice() {
    assert_eq!(slice_indices(-3, 100, 1, 10), (7, 10, 1));
    assert_eq!(slice_indices(-100, 5, 1, 10), (0, 5, 1));
    assert_eq!(slice_indices(4, 1, -2, 10), (4, 1, -2));
    assert_eq!(slice_indices(4, 8, -1, 10), (4, -1, -1));
}
