// The per-pixel transform and whole-frame adjustment on concrete
// frames, including the end-to-end exposure scenario.
use lapsify::adjust::{adjust_pixel_exec, apply_adjustments, pow2_milli, ImageAdjustments};
use lapsify::frame::Image;

fn solid_gray(width: u32, height: u32, level: u8) -> Image {
    Image {
        width,
        height,
        data: vec![level; (width as usize) * (height as usize) * 3],
    }
}

fn identity_adjustments() -> ImageAdjustments {
    ImageAdjustments {
        exposure: vec![0],
        brightness: vec![0],
        contrast: vec![1000],
        saturation: vec![1000],
        crop: None,
    }
}

#[test]
fn exposure_multiplier_hits_whole_stops() {
    assert_eq!(pow2_milli(0), 65_536);
    assert_eq!(pow2_milli(1000), 131_072);
    assert_eq!(pow2_milli(2000), 262_144);
    assert_eq!(pow2_milli(3000), 524_288);
    assert_eq!(pow2_milli(-1000), 32_768);
    assert_eq!(pow2_milli(-3000), 8_192);
    // within a stop the factor grows monotonically
    let mut last = 0i64;
    for e in 0..=1000 {
        let m = pow2_milli(e);
        assert!(m >= last);
        last = m;
    }
}

#[test]
fn identity_parameters_leave_pixels_alone() {
    for v in [0u8, 1, 17, 127, 128, 200, 254, 255] {
        let p = adjust_pixel_exec((v, v, v), 65_536, 0, 1000, 1000);
        assert_eq!(p, (v, v, v));
    }
    let p = adjust_pixel_exec((12, 200, 77), 65_536, 0, 1000, 1000);
    assert_eq!(p, (12, 200, 77));
}

#[test]
fn one_stop_doubles_and_clamps() {
    assert_eq!(adjust_pixel_exec((100, 60, 3), 131_072, 0, 1000, 1000), (200, 120, 6));
    assert_eq!(adjust_pixel_exec((128, 200, 255), 131_072, 0, 1000, 1000), (255, 255, 255));
}

#[test]
fn contrast_pulls_toward_and_away_from_gray() {
    // zero contrast sends every channel to mid-gray
    let p = adjust_pixel_exec((10, 128, 230), 65_536, 0, 0, 1000);
    assert_eq!(p, (127, 127, 127));
    // doubling contrast spreads values away from the middle
    let q = adjust_pixel_exec((100, 100, 100), 65_536, 0, 2000, 1000);
    assert!(q.0 < 100);
    let r = adjust_pixel_exec((160, 160, 160), 65_536, 0, 2000, 1000);
    assert!(r.0 > 160);
}

#[test]
fn zero_saturation_grays_out() {
    // with saturation 0 every channel becomes the luma
    let (r, g, b) = adjust_pixel_exec((250, 10, 10), 65_536, 0, 1000, 0);
    assert_eq!(r, g);
    assert_eq!(g, b);
}

#[test]
fn brightness_shift_adds_a_fixed_amount() {
    // +25.5 brightness is a tenth of full scale: about 25-26 steps
    let (r, _, _) = adjust_pixel_exec((100, 100, 100), 65_536, 104_448, 1000, 1000);
    assert!((125..=126).contains(&r), "got {}", r);
}

#[test]
fn no_op_adjustment_is_pixel_identical() {
    let img = solid_gray(16, 9, 143);
    let adj = identity_adjustments();
    let out = apply_adjustments(&img, &adj, 0, 1).unwrap();
    assert_eq!(out.width, 16);
    assert_eq!(out.height, 9);
    assert_eq!(out.data, img.data);
}

#[test]
fn exposure_scenario_first_and_last_frame() {
    // ten solid-gray frames, exposure timeline [0.0, 1.0]:
    // frame 0 keeps the input level, frame 9 doubles it (clamped)
    let adj = ImageAdjustments {
        exposure: vec![0, 1000],
        brightness: vec![0],
        contrast: vec![1000],
        saturation: vec![1000],
        crop: None,
    };
    let img = solid_gray(100, 100, 128);
    let first = apply_adjustments(&img, &adj, 0, 10).unwrap();
    assert!(first.data.iter().all(|&v| v == 128));
    let last = apply_adjustments(&img, &adj, 9, 10).unwrap();
    assert!(last.data.iter().all(|&v| v == 255));
    let dim = solid_gray(100, 100, 90);
    let last_dim = apply_adjustments(&dim, &adj, 9, 10).unwrap();
    assert!(last_dim.data.iter().all(|&v| v == 180));
}

#[test]
fn crop_window_limits_the_output() {
    let img = solid_gray(200, 100, 50);
    let adj = ImageAdjustments {
        crop: Some(b"50%:50%:0:0".to_vec()),
        ..identity_adjustments()
    };
    let out = apply_adjustments(&img, &adj, 0, 1).unwrap();
    assert_eq!((out.width, out.height), (100, 50));
    assert!(out.data.iter().all(|&v| v == 50));
}

#[test]
fn bad_crop_string_fails_the_frame() {
    let img = solid_gray(8, 8, 10);
    let adj = ImageAdjustments {
        crop: Some(b"1:2:3".to_vec()),
        ..identity_adjustments()
    };
    assert!(apply_adjustments(&img, &adj, 0, 1).is_err());
}
