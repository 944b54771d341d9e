//! The median and the per-cell statistics.

use mupattern::analyze::{background_at, background_or_median, cell_stats, total_intensity};
use mupattern::median::{
    median_outside_mask_u16, median_outside_mask_u8, median_u16, median_u16_in_place,
};

#[test]
fn odd_count_takes_the_middle() {
    assert_eq!(median_u16(&[1, 2, 3]), 2);
    assert_eq!(median_u16(&[3, 1, 2]), 2);
}

#[test]
fn even_count_truncates_the_mean_of_the_middle_pair() {
    assert_eq!(median_u16(&[1, 2, 3, 4]), 2);
    assert_eq!(median_u16(&[4, 2, 1, 3]), 2);
    assert_eq!(median_u16(&[2, 3]), 2);
    assert_eq!(median_u16(&[1, 2]), 1);
}

#[test]
fn empty_and_singleton_medians() {
    assert_eq!(median_u16(&[]), 0);
    assert_eq!(median_u16(&[9]), 9);
}

#[test]
fn large_values_do_not_overflow() {
    assert_eq!(median_u16(&[65535, 65535]), 65535);
    assert_eq!(median_u16(&[65534, 65535]), 65534);
}

#[test]
fn in_place_median_sorts_the_values() {
    let mut v = vec![3, 1, 2];
    assert_eq!(median_u16_in_place(&mut v), 2);
    assert_eq!(v, vec![1, 2, 3]);
}

#[test]
fn masked_pixels_are_left_out() {
    let frame: Vec<u16> = vec![10, 99, 30, 99];
    let mask = vec![false, true, false, true];
    assert_eq!(median_outside_mask_u16(&frame, 2, 2, &mask), 20);
}

#[test]
fn eight_bit_frames_widen_before_the_median() {
    let frame: Vec<u8> = vec![10, 99, 30, 99];
    let mask = vec![false, true, false, true];
    assert_eq!(median_outside_mask_u8(&frame, 2, 2, &mask), 20);
}

#[test]
fn fully_masked_frame_has_median_zero() {
    let frame: Vec<u16> = vec![7, 7];
    let mask = vec![true, true];
    assert_eq!(median_outside_mask_u16(&frame, 2, 1, &mask), 0);
}

#[test]
fn intensity_sums_every_pixel() {
    assert_eq!(total_intensity(&[1, 2, 3, 65535]), 65541);
    assert_eq!(total_intensity(&[]), 0);
}

#[test]
fn stored_background_falls_back_to_zero() {
    let bg = vec![5u16, 6];
    assert_eq!(background_at(&bg, 1), 6);
    assert_eq!(background_at(&bg, 2), 0);
}

#[test]
fn analysis_background_falls_back_to_the_frame_median() {
    let bg = vec![5u16];
    let fluo = vec![9u16, 1, 4];
    assert_eq!(background_or_median(&bg, 0, &fluo), 5);
    assert_eq!(background_or_median(&bg, 1, &fluo), 4);
}

#[test]
fn per_cell_sums_and_areas() {
    let masks: Vec<u16> = vec![0, 1, 1, 2, 0, 2];
    let fluo: Vec<u16> = vec![100, 10, 20, 5, 100, 7];
    let (sums, counts) = cell_stats(&masks, &fluo);
    assert_eq!(sums.len(), 3);
    assert_eq!(sums[1], 30);
    assert_eq!(counts[1], 2);
    assert_eq!(sums[2], 12);
    assert_eq!(counts[2], 2);
    assert_eq!(sums[0], 0);
    assert_eq!(counts[0], 0);
}
