// Crop descriptor parsing and resolution against concrete dimensions.
use lapsify::crop::{
    parse_crop_string, parse_crop_value, resolve_crop, resolve_crop_string, CropError,
};

fn bytes(s: &str) -> Vec<u8> {
    s.as_bytes().to_vec()
}

#[test]
fn crop_string_needs_four_fields() {
    assert_eq!(
        parse_crop_string(&bytes("100:200:0")).unwrap_err(),
        CropError::InvalidCropFormat
    );
    assert_eq!(
        parse_crop_string(&bytes("1:2:3:4:5")).unwrap_err(),
        CropError::InvalidCropFormat
    );
    assert!(parse_crop_string(&bytes("100:200:0:0")).is_ok());
}

#[test]
fn crop_fields_reject_bad_values() {
    assert_eq!(
        parse_crop_string(&bytes("abc:200:0:0")).unwrap_err(),
        CropError::InvalidCropValue
    );
    // a percentage outside [0, 100] is invalid
    assert_eq!(
        parse_crop_value(&bytes("120%")).unwrap_err(),
        CropError::InvalidCropValue
    );
    assert_eq!(
        parse_crop_value(&bytes("-5%")).unwrap_err(),
        CropError::InvalidCropValue
    );
}

#[test]
fn crop_value_reads_pixels_and_percentages() {
    let v = parse_crop_value(&bytes("250")).unwrap();
    assert_eq!((v.value, v.percent), (250_000, false));
    let p = parse_crop_value(&bytes("50%")).unwrap();
    assert_eq!((p.value, p.percent), (50_000, true));
    let n = parse_crop_value(&bytes("-10")).unwrap();
    assert_eq!((n.value, n.percent), (-10_000, false));
    let f = parse_crop_value(&bytes(" 12.5% ")).unwrap();
    assert_eq!((f.value, f.percent), (12_500, true));
}

#[test]
fn half_percent_crop_on_landscape_image() {
    // "50%:50%:0:0" on 200x100 gives a 100x50 window at the origin
    let rect = resolve_crop_string(&bytes("50%:50%:0:0"), 200, 100).unwrap();
    assert_eq!(
        (rect.start_x, rect.start_y, rect.end_x, rect.end_y),
        (0, 0, 100, 50)
    );
}

#[test]
fn crop_resolution_is_idempotent_on_pixel_rects() {
    // resolve a percentage crop, restate it in whole pixels, resolve
    // again: the rectangle must not move
    let rect = resolve_crop_string(&bytes("50%:50%:25%:25%"), 200, 100).unwrap();
    let w = rect.end_x - rect.start_x;
    let h = rect.end_y - rect.start_y;
    let restated = format!("{}:{}:{}:{}", w, h, rect.start_x, rect.start_y);
    let again = resolve_crop_string(&bytes(&restated), 200, 100).unwrap();
    assert_eq!(rect, again);
}

#[test]
fn negative_offsets_count_from_the_far_edge() {
    // x = -10 means ten percent in from the right edge
    let params = parse_crop_string(&bytes("50:50:-10:0")).unwrap();
    let rect = resolve_crop(&params, 200, 100);
    assert_eq!(rect.start_x, 180);
    assert_eq!(rect.end_x, 200); // 50 px would overrun; clamped
    assert_eq!((rect.start_y, rect.end_y), (0, 50));
}

#[test]
fn zero_size_fields_take_the_remainder() {
    let params = parse_crop_string(&bytes("0:0:60:30")).unwrap();
    let rect = resolve_crop(&params, 200, 100);
    assert_eq!(
        (rect.start_x, rect.start_y, rect.end_x, rect.end_y),
        (60, 30, 200, 100)
    );
}
