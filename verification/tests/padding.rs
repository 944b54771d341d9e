//! Movie-frame padding geometry.

use mupattern::video::{pad_dimensions, pad_rgb_frame};

#[test]
fn dimensions_round_up_to_multiples_of_sixteen() {
    assert_eq!(pad_dimensions(50, 50), (64, 64));
    assert_eq!(pad_dimensions(64, 32), (64, 32));
    assert_eq!(pad_dimensions(1, 17), (16, 32));
}

#[test]
fn padding_keeps_pixels_and_fills_black() {
    let rgb: Vec<u8> = (0..12).collect();
    let out = pad_rgb_frame(&rgb, 2, 2, 3, 3);
    assert_eq!(out.len(), 27);
    assert_eq!(&out[0..6], &rgb[0..6]);
    assert_eq!(&out[6..9], &[0, 0, 0]);
    assert_eq!(&out[9..15], &rgb[6..12]);
    assert_eq!(&out[15..27], &[0u8; 12]);
}
