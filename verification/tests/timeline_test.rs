// Interpolation behavior over concrete timelines, in milli-units.
use lapsify::timeline::{bezier_interpolate, interpolate_value};

#[test]
fn single_value_is_constant_everywhere() {
    let tl = vec![1500i64];
    for total in [1usize, 2, 10, 500] {
        for i in 0..total {
            assert_eq!(interpolate_value(&tl, i, total), 1500);
        }
    }
}

#[test]
fn two_values_hit_both_endpoints() {
    let tl = vec![0i64, 1000];
    assert_eq!(interpolate_value(&tl, 0, 10), 0);
    assert_eq!(interpolate_value(&tl, 9, 10), 1000);
    let tl2 = vec![-2000i64, 3000];
    assert_eq!(interpolate_value(&tl2, 0, 2), -2000);
    assert_eq!(interpolate_value(&tl2, 1, 2), 3000);
}

#[test]
fn two_values_interpolate_monotonically() {
    let tl = vec![0i64, 1000];
    let mut last = -1i64;
    for i in 0..10 {
        let v = interpolate_value(&tl, i, 10);
        assert!(v >= last);
        last = v;
    }
}

#[test]
fn three_point_midpoint_deviates_toward_middle() {
    // timeline [a, b, a] with a = 0, b = 1000: the middle frame of an
    // odd run is the rounded mean (a + b) / 2
    let tl = vec![0i64, 1000, 0];
    let mid = interpolate_value(&tl, 2, 5);
    assert_eq!(mid, 500);
    assert!(mid > 0 && mid <= 1000);
}

#[test]
fn three_point_curve_is_symmetric_at_exact_positions() {
    let tl = vec![200i64, 800, 200];
    // 5 frames: positions 0, 1/4, 1/2, 3/4, 1 are all exact in the
    // millionth scale, so mirrored frames must agree
    let total = 5;
    for i in 0..total {
        let a = interpolate_value(&tl, i, total);
        let b = interpolate_value(&tl, total - 1 - i, total);
        assert_eq!(a, b);
    }
}

#[test]
fn bezier_endpoints_are_exact_for_many_points() {
    let tl = vec![100i64, 900, -400, 700, 250];
    assert_eq!(bezier_interpolate(&tl, 0), 100);
    assert_eq!(bezier_interpolate(&tl, 1_000_000), 250);
}

#[test]
fn constant_control_points_blend_near_constant() {
    let tl = vec![300i64, 300, 300, 300];
    // fixed-point weight truncation may only lose fractions of a
    // milli-unit
    for t in [0i64, 250_000, 500_000, 750_000, 1_000_000] {
        let v = bezier_interpolate(&tl, t);
        assert!((299..=300).contains(&v), "blend strayed: {}", v);
    }
}

#[test]
fn long_timelines_keep_precision_at_mid_curve() {
    // with the longest allowed timeline the tiniest Bernstein weight
    // is about 2^-23; the blend must still track the curve closely
    let tl = vec![1000i64; 24];
    for t in [1i64, 250_000, 500_000, 750_000, 999_999] {
        let v = bezier_interpolate(&tl, t);
        assert!((999..=1000).contains(&v), "blend strayed: {} at t={}", v, t);
    }
    // a single spike in the middle still registers at mid-curve
    let mut spike = vec![0i64; 21];
    spike[10] = 1_000_000;
    let v = bezier_interpolate(&spike, 500_000);
    assert!(v > 150_000, "mid-curve spike vanished: {}", v);
}
