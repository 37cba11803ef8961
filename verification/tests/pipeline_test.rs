// Frame-range selection, the whole-run driver, ingestion and the
// codec bridges, on concrete in-memory frames.
use lapsify::adjust::ImageAdjustments;
use lapsify::frame::{decode_rgb_bytes, encode_image_bytes, Image};
use lapsify::ingest::{develop_raw, gamma_encode, load_image, RawFrame};
use lapsify::process::{run_frames, FrameInput, ProgressTracker};
use lapsify::range::{select_frame_range, RangeError};
use lapsify::timeline::interpolate_value;

fn solid(width: u32, height: u32, level: u8) -> Image {
    Image {
        width,
        height,
        data: vec![level; (width as usize) * (height as usize) * 3],
    }
}

fn identity_adjustments() -> ImageAdjustments {
    ImageAdjustments {
        exposure: vec![0],
        brightness: vec![0],
        contrast: vec![1000],
        saturation: vec![1000],
        crop: None,
    }
}

fn png_bytes(img: &Image) -> Vec<u8> {
    encode_image_bytes(1, img.width, img.height, &img.data).unwrap()
}

fn paths(n: usize) -> Vec<String> {
    (0..n).map(|i| format!("frame_{i}.png")).collect()
}

#[test]
fn range_rejects_reversed_and_overlong_ranges() {
    let p = paths(5);
    assert_eq!(
        select_frame_range(&p, Some(3), Some(2)).unwrap_err(),
        RangeError::InvalidFrameRange
    );
    assert_eq!(
        select_frame_range(&p, Some(5), None).unwrap_err(),
        RangeError::FrameIndexOutOfRange
    );
    assert_eq!(
        select_frame_range(&p, None, Some(7)).unwrap_err(),
        RangeError::FrameIndexOutOfRange
    );
}

#[test]
fn range_keeps_original_indices() {
    let p = paths(5);
    let tasks = select_frame_range(&p, Some(1), Some(3)).unwrap();
    assert_eq!(tasks.len(), 3);
    for (k, t) in tasks.iter().enumerate() {
        assert_eq!(t.original_index, 1 + k);
        assert_eq!(t.output_index, k);
        assert_eq!(t.total_original, 5);
        assert_eq!(t.path, p[1 + k]);
    }
}

#[test]
fn single_frame_subset_keeps_curve_position() {
    // start = end = 2 of a 5-frame run: exactly one frame, whose
    // interpolation position is index 2 of 5, not 0 of 1
    let p = paths(5);
    let tasks = select_frame_range(&p, Some(2), Some(2)).unwrap();
    assert_eq!(tasks.len(), 1);
    assert_eq!(tasks[0].original_index, 2);
    assert_eq!(tasks[0].total_original, 5);
    let tl = vec![0i64, 1000];
    let mid = interpolate_value(&tl, tasks[0].original_index, tasks[0].total_original);
    let start = interpolate_value(&tl, 0, 1);
    assert_eq!(mid, 500);
    assert_eq!(start, 0);
    assert_ne!(mid, start);
}

#[test]
fn codec_round_trip_preserves_pixels() {
    let img = solid(12, 7, 99);
    let bytes = png_bytes(&img);
    assert_ne!(bytes, img.data, "encoding must actually serialize");
    let back = decode_rgb_bytes(&bytes).unwrap();
    assert_eq!((back.width, back.height), (12, 7));
    assert_eq!(back.data, img.data);
}

#[test]
fn load_image_falls_back_to_sensor_data() {
    let garbage = b"definitely not an image".to_vec();
    assert!(load_image(&garbage, None, 1000).is_err());
    let raw = RawFrame { width: 2, height: 1, samples: vec![0, 100] };
    let img = load_image(&garbage, Some(&raw), 1000).unwrap();
    assert_eq!((img.width, img.height), (2, 1));
    assert_eq!(img.data, vec![0, 0, 0, 255, 255, 255]);
}

#[test]
fn gamma_encoding_matches_the_curve() {
    assert_eq!(gamma_encode(0), 0);
    assert_eq!(gamma_encode(25_500), 255);
    assert_eq!(gamma_encode(12_750), 186);
    assert_eq!(gamma_encode(6_375), 135);
    let mut last = 0u8;
    for x in (0..=25_500u32).step_by(255) {
        let g = gamma_encode(x);
        assert!(g >= last);
        last = g;
    }
}

#[test]
fn raw_development_boosts_before_gamma() {
    let raw = RawFrame { width: 2, height: 1, samples: vec![40, 80] };
    // boost 2.0: the low sample is normalized to 0, stays 0; the high
    // one saturates at full scale
    let img = develop_raw(&raw, 2000);
    assert_eq!(img.data, vec![0, 0, 0, 255, 255, 255]);
    // boost 0.5 halves the normalized value before gamma
    let img2 = develop_raw(&raw, 500);
    assert_eq!(img2.data[0], 0);
    assert_eq!(img2.data[3], 186);
}

#[test]
fn one_bad_frame_does_not_stop_the_others() {
    // five inputs, one corrupted: four outputs, one recorded error,
    // and the run as a whole reports failure
    let good = png_bytes(&solid(10, 10, 64));
    let mut inputs = Vec::new();
    for k in 0..5usize {
        let bytes = if k == 2 {
            b"corrupted!".to_vec()
        } else {
            good.clone()
        };
        inputs.push(FrameInput {
            path: format!("in_{k}.png"),
            bytes,
            sensor: None,
        });
    }
    let adj = identity_adjustments();
    let mut progress = ProgressTracker::new(5);
    let (result, outputs) = run_frames(&inputs, &adj, 0, 5, 2000, 1, &mut progress);
    assert_eq!(outputs.len(), 5);
    assert_eq!(result.processed, 4);
    assert_eq!(result.errors.len(), 1);
    assert_eq!(result.errors[0].path, "in_2.png");
    assert!(!result.overall_success());
    assert_eq!(progress.done, 4);
    for (k, out) in outputs.iter().enumerate() {
        if k == 2 {
            assert!(out.is_none());
        } else {
            let encoded = out.as_ref().unwrap();
            let decoded = decode_rgb_bytes(encoded).unwrap();
            assert!(decoded.data.iter().all(|&v| v == 64));
        }
    }
}

#[test]
fn successful_run_reports_success() {
    let good = png_bytes(&solid(4, 4, 32));
    let inputs = vec![
        FrameInput { path: "a.png".to_string(), bytes: good.clone(), sensor: None },
        FrameInput { path: "b.png".to_string(), bytes: good, sensor: None },
    ];
    let adj = identity_adjustments();
    let mut progress = ProgressTracker::new(2);
    let (result, outputs) = run_frames(&inputs, &adj, 0, 2, 2000, 1, &mut progress);
    assert!(result.overall_success());
    assert_eq!(result.processed, 2);
    assert!(outputs.iter().all(|o| o.is_some()));
}
