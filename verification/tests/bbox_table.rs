//! The rectangle table: parsing, column handling, validation and the
//! background mask.

use mupattern::bbox::{
    bbox_mask, parse_bbox_csv, validate_bboxes, Bbox, BboxColumn, ParseError, ValidationError,
};

#[test]
fn parses_one_row() {
    let v = parse_bbox_csv("crop,x,y,w,h\n0,10,20,30,40\n").unwrap();
    assert_eq!(v, vec![Bbox { x: 10, y: 20, w: 30, h: 40 }]);
}

#[test]
fn column_order_does_not_matter() {
    let a = parse_bbox_csv("crop,x,y,w,h\n0,10,20,30,40\n1,1,2,3,4\n").unwrap();
    let b = parse_bbox_csv("h,w,y,x,crop\n40,30,20,10,0\n4,3,2,1,1\n").unwrap();
    assert_eq!(a, b);
}

#[test]
fn header_is_case_insensitive_and_trimmed() {
    let v = parse_bbox_csv("CROP, X ,Y,W,H\n7,1,2,3,4\n").unwrap();
    assert_eq!(v, vec![Bbox { x: 1, y: 2, w: 3, h: 4 }]);
}

#[test]
fn blank_lines_are_skipped() {
    let v = parse_bbox_csv("crop,x,y,w,h\n\n0,1,2,3,4\n   \n1,5,6,7,8\n").unwrap();
    assert_eq!(v.len(), 2);
    assert_eq!(v[1], Bbox { x: 5, y: 6, w: 7, h: 8 });
}

#[test]
fn empty_text_parses_to_no_rectangles() {
    let v = parse_bbox_csv("").unwrap();
    assert!(v.is_empty());
}

#[test]
fn header_only_parses_to_no_rectangles() {
    let v = parse_bbox_csv("crop,x,y,w,h\n").unwrap();
    assert!(v.is_empty());
}

#[test]
fn missing_column_is_reported() {
    let e = parse_bbox_csv("crop,x,y,w\n0,1,2,3\n").unwrap_err();
    assert_eq!(e, ParseError::MissingColumn { column: BboxColumn::H });
}

#[test]
fn short_row_is_reported_with_its_line() {
    let e = parse_bbox_csv("crop,x,y,w,h\n1,2,3\n").unwrap_err();
    assert_eq!(e, ParseError::ShortRow { row: 2 });
}

#[test]
fn bad_field_is_reported_with_line_and_column() {
    let e = parse_bbox_csv("crop,x,y,w,h\n0,1,2,3,4\n1,oops,2,3,4\n").unwrap_err();
    assert_eq!(e, ParseError::BadField { row: 3, column: BboxColumn::X });
}

#[test]
fn bbox_touching_the_edge_is_accepted() {
    let bs = [Bbox { x: 90, y: 0, w: 10, h: 10 }];
    assert!(validate_bboxes(&bs, 100, 100).is_ok());
}

#[test]
fn bbox_exceeding_the_width_is_rejected() {
    let bs = [Bbox { x: 95, y: 0, w: 10, h: 10 }];
    let e = validate_bboxes(&bs, 100, 100).unwrap_err();
    assert_eq!(e, ValidationError::OutOfBounds { index: 0 });
}

#[test]
fn zero_size_bbox_is_rejected() {
    let bs = [Bbox { x: 0, y: 0, w: 5, h: 5 }, Bbox { x: 1, y: 1, w: 0, h: 3 }];
    let e = validate_bboxes(&bs, 100, 100).unwrap_err();
    assert_eq!(e, ValidationError::ZeroSize { index: 1 });
}

#[test]
fn coordinate_overflow_is_rejected() {
    let bs = [Bbox { x: u32::MAX, y: 0, w: 2, h: 2 }];
    let e = validate_bboxes(&bs, 100, 100).unwrap_err();
    assert_eq!(e, ValidationError::Overflow { index: 0 });
}

#[test]
fn mask_covers_exactly_the_rectangles() {
    let bs = [Bbox { x: 1, y: 1, w: 2, h: 1 }, Bbox { x: 0, y: 2, w: 1, h: 1 }];
    let m = bbox_mask(&bs, 4, 3);
    let expected = [
        false, false, false, false,
        false, true, true, false,
        true, false, false, false,
    ];
    assert_eq!(m, expected);
}
