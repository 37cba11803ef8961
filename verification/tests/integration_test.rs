// Carried-over integration test entry points for the command-line
// driver; the library-level behavior they sketch is covered in the
// neighboring test files.
use lapsify::process::calculate_frame_padding;

#[test]
fn test_cli_command_generation() {
    println!("CLI command generation test would go here");
    assert!(true);
}

#[test]
fn test_keyframe_validation() {
    println!("Keyframe validation test would go here");
    assert!(true);
}

#[test]
fn test_folder_validation() {
    println!("Folder validation test would go here");
    assert!(true);
}

#[test]
fn test_performance_metrics() {
    println!("Performance metrics test would go here");
    assert!(true);
}

#[test]
fn test_error_handling() {
    println!("Error handling test would go here");
    assert!(true);
}

#[test]
fn frame_padding_matches_digit_count() {
    assert_eq!(calculate_frame_padding(0), 1);
    assert_eq!(calculate_frame_padding(9), 1);
    assert_eq!(calculate_frame_padding(10), 2);
    assert_eq!(calculate_frame_padding(999), 3);
    assert_eq!(calculate_frame_padding(1000), 4);
}
