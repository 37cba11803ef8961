// Resolution planning, settings validation, naming, encoder argument
// building and progress-line parsing on concrete values.
use lapsify::monitor::{
    calculate_thumbnail_memory_size, cli_result_of_output, is_image_file,
    parse_progress_from_output,
};
use lapsify::process::{format_frame_filename, generate_output_filename};
use lapsify::resolution::{
    parse_resolution, plan_output_resolution, plan_with_crop, ResolutionError,
};
use lapsify::settings::{
    classify_output_format, parse_value_array, validate_output_settings, validate_value_array,
    OutputKind, SettingsError,
};
use lapsify::video::{build_encoder_args, encode_outcome, u32_string, VideoError};

fn bytes(s: &str) -> Vec<u8> {
    s.as_bytes().to_vec()
}

#[test]
fn resolution_presets_and_literals() {
    assert_eq!(parse_resolution(&bytes("4K")).unwrap(), (3840, 2160));
    assert_eq!(parse_resolution(&bytes("hd")).unwrap(), (1920, 1080));
    assert_eq!(parse_resolution(&bytes("1080P")).unwrap(), (1920, 1080));
    assert_eq!(parse_resolution(&bytes("720p")).unwrap(), (1280, 720));
    assert_eq!(parse_resolution(&bytes("1280x960")).unwrap(), (1280, 960));
    assert_eq!(
        parse_resolution(&bytes("1280")).unwrap_err(),
        ResolutionError::InvalidResolutionFormat
    );
    assert_eq!(
        parse_resolution(&bytes("axb")).unwrap_err(),
        ResolutionError::InvalidResolutionValue
    );
}

#[test]
fn planned_dimensions_are_always_even() {
    // matching aspect: no warning, dimensions as requested
    let (w, h, warn) = plan_output_resolution(1920, 1080, 1920, 1080).unwrap();
    assert_eq!((w, h), (1920, 1080));
    assert!(!warn);
    // odd target height is rounded up, scaled width follows the source
    let (w2, h2, _) = plan_output_resolution(100, 100, 99, 99).unwrap();
    assert_eq!(w2 % 2, 0);
    assert_eq!(h2 % 2, 0);
    assert_eq!((w2, h2), (100, 100));
    // a square source against a wide target warns
    let (_, _, warn3) = plan_output_resolution(100, 100, 1920, 1080).unwrap();
    assert!(warn3);
}

#[test]
fn aspect_warning_tolerance_is_relative() {
    // a 10:1 source against a 10.4:1 target differs by 4% of the
    // source ratio: inside the tolerance, no warning
    let (_, _, warn) = plan_output_resolution(1000, 100, 1040, 100).unwrap();
    assert!(!warn);
    // 10.6:1 differs by 6% of the source ratio: warned
    let (_, _, warn2) = plan_output_resolution(1000, 100, 1060, 100).unwrap();
    assert!(warn2);
    // exactly five percent is still inside the tolerance
    let (_, _, warn3) = plan_output_resolution(1000, 100, 1050, 100).unwrap();
    assert!(!warn3);
}

#[test]
fn crop_aware_plan_fits_the_wider_side() {
    // crop wider than target: height kept, width follows the crop
    let (w, h) = plan_with_crop(200, 50, 100, 100).unwrap();
    assert_eq!((w, h), (400, 100));
    // crop narrower than target: width kept, height follows the crop
    let (w2, h2) = plan_with_crop(50, 100, 100, 100).unwrap();
    assert_eq!((w2, h2), (100, 200));
    assert_eq!(w2 % 2, 0);
    assert_eq!(h2 % 2, 0);
}

#[test]
fn value_arrays_parse_to_milli_units() {
    assert_eq!(
        parse_value_array(&bytes("0.0,1.5,-0.5")).unwrap(),
        vec![0, 1500, -500]
    );
    assert_eq!(parse_value_array(&bytes("2")).unwrap(), vec![2000]);
    assert_eq!(
        parse_value_array(&bytes("1.0,oops")).unwrap_err(),
        SettingsError::InvalidValueArray
    );
}

#[test]
fn value_ranges_are_enforced() {
    assert!(validate_value_array(&vec![0, 3000, -3000], -3000, 3000).is_ok());
    assert_eq!(
        validate_value_array(&vec![0, 3500], -3000, 3000).unwrap_err(),
        SettingsError::ValueOutOfRange(1)
    );
    assert!(validate_output_settings(24, 20).is_ok());
    assert_eq!(
        validate_output_settings(0, 20).unwrap_err(),
        SettingsError::InvalidFps
    );
    assert_eq!(
        validate_output_settings(121, 20).unwrap_err(),
        SettingsError::InvalidFps
    );
    assert_eq!(
        validate_output_settings(24, 52).unwrap_err(),
        SettingsError::InvalidQuality
    );
}

#[test]
fn output_names_carry_stem_and_format() {
    assert_eq!(
        generate_output_filename(&bytes("shot042"), &bytes("png")),
        bytes("shot042_processed.png")
    );
    assert_eq!(format_frame_filename(7, 3), bytes("frame_007.jpg"));
    assert_eq!(format_frame_filename(123, 3), bytes("frame_123.jpg"));
    assert_eq!(format_frame_filename(1, 1), bytes("frame_1.jpg"));
}

#[test]
fn encoder_arguments_follow_the_recipe() {
    let args = build_encoder_args(24, 20, "tmp/frame_%03d.jpg", Some((1920, 1080)), "out.mp4");
    let expect = vec![
        "-y",
        "-framerate",
        "24",
        "-i",
        "tmp/frame_%03d.jpg",
        "-c:v",
        "libx264",
        "-crf",
        "20",
        "-pix_fmt",
        "yuv420p",
        "-vf",
        "scale=1920:1080",
        "out.mp4",
    ];
    assert_eq!(args, expect);
    let plain = build_encoder_args(30, 18, "p", None, "o.mov");
    assert_eq!(plain.len(), 12);
    assert!(!plain.iter().any(|a| a == "-vf"));
    assert_eq!(u32_string(1080), "1080");
    assert_eq!(u32_string(0), "0");
}

#[test]
fn encoder_exit_is_read_faithfully() {
    assert!(encode_outcome(true, String::new()).is_ok());
    match encode_outcome(false, "boom".to_string()).unwrap_err() {
        VideoError::EncodingFailed(msg) => assert_eq!(msg, "boom"),
    }
}

#[test]
fn output_formats_are_classified() {
    assert_eq!(classify_output_format(&bytes("mp4")), OutputKind::Video);
    assert_eq!(classify_output_format(&bytes("MOV")), OutputKind::Video);
    assert_eq!(classify_output_format(&bytes("avi")), OutputKind::Video);
    assert_eq!(classify_output_format(&bytes("png")), OutputKind::Image);
    assert_eq!(classify_output_format(&bytes("JPEG")), OutputKind::Image);
    assert_eq!(classify_output_format(&bytes("gif")), OutputKind::Unsupported);
}

#[test]
fn image_files_are_recognized_by_extension() {
    assert!(is_image_file("photo.JPG"));
    assert!(is_image_file("a/b/shot.cr2"));
    assert!(is_image_file("clip.webp"));
    assert!(is_image_file("scan.TIFF"));
    assert!(!is_image_file("notes.txt"));
    assert!(!is_image_file("noextension"));
    assert!(!is_image_file(".hidden"));
    assert!(!is_image_file("movie.mp4"));
}

#[test]
fn thumbnail_memory_is_four_bytes_a_pixel() {
    assert_eq!(calculate_thumbnail_memory_size(200, 150), 120_000);
    assert_eq!(calculate_thumbnail_memory_size(0, 99), 0);
}

#[test]
fn progress_lines_are_parsed_from_output() {
    assert_eq!(
        parse_progress_from_output("Processing frame 5 of 100"),
        Some((5, 100))
    );
    assert_eq!(parse_progress_from_output("Processing frame 7/100"), Some((7, 0)));
    assert_eq!(parse_progress_from_output("no numbers here"), None);
    assert_eq!(parse_progress_from_output("Frame 3 12"), Some((3, 12)));
}

#[test]
fn cli_results_keep_the_process_words() {
    let ok = cli_result_of_output(
        true,
        "done".to_string(),
        String::new(),
        Some("out.mp4".to_string()),
    );
    assert!(ok.success);
    assert_eq!(ok.output_path.as_deref(), Some("out.mp4"));
    assert!(ok.error_message.is_none());
    let bad = cli_result_of_output(false, String::new(), "exploded".to_string(), None);
    assert_eq!(bad.error_message.as_deref(), Some("exploded"));
    let silent = cli_result_of_output(false, String::new(), String::new(), None);
    assert_eq!(
        silent.error_message.as_deref(),
        Some("Command failed with unknown error")
    );
}
