//! Movement validator tests. Positions and velocities are fixed-point:
//! micrometers and micrometers per second (1 m = 1_000_000 units).

use world_sync::movement::validate_movement;

const M: i64 = 1_000_000;

#[test]
fn test_validate_movement_valid_linear_motion() {
    // from the origin to 10 m in one second at a reported 10 m/s
    let result = validate_movement(
        0, 0, 0, 1000,
        10 * M, 0, 0, 2000,
        10 * M, 0, 0,
    );
    assert!(result.is_valid);
    assert!(result.corrected_x.is_none());
}

#[test]
fn test_validate_movement_stationary() {
    let result = validate_movement(
        100 * M, 200 * M, 300 * M, 5000,
        100 * M, 200 * M, 300 * M, 6000,
        0, 0, 0,
    );
    assert!(result.is_valid);
}

#[test]
fn test_validate_movement_zero_time_delta() {
    // identical timestamps: not judged
    let result = validate_movement(
        0, 0, 0, 1000,
        1000 * M, 1000 * M, 1000 * M, 1000,
        0, 0, 0,
    );
    assert!(result.is_valid);
}

#[test]
fn test_validate_movement_negative_time_delta() {
    // reordered timestamps: not judged
    let result = validate_movement(
        0, 0, 0, 2000,
        1000 * M, 0, 0, 1000,
        0, 0, 0,
    );
    assert!(result.is_valid);
}

#[test]
fn test_validate_movement_time_delta_too_large() {
    // 70 s between samples: not judged
    let result = validate_movement(
        0, 0, 0, 0,
        10000 * M, 0, 0, 70000,
        0, 0, 0,
    );
    assert!(result.is_valid);
}

#[test]
fn test_validate_movement_cheating_teleport() {
    // 100 m in one second at a reported 10 m/s
    let result = validate_movement(
        0, 0, 0, 0,
        100 * M, 0, 0, 1000,
        10 * M, 0, 0,
    );
    assert!(!result.is_valid);
    assert!(result.corrected_x.is_some());
    // expected position: 0 + 10 m/s * 1 s = 10 m
    assert_eq!(result.corrected_x.unwrap(), 10 * M);
    assert_eq!(result.corrected_y.unwrap(), 0);
    assert_eq!(result.corrected_z.unwrap(), 0);
}

#[test]
fn test_validate_movement_tolerance_boundary() {
    // expected 10 m, actual 10.4 m: within the 0.5 m tolerance
    let result = validate_movement(
        0, 0, 0, 0,
        10_400_000, 0, 0, 1000,
        10 * M, 0, 0,
    );
    assert!(result.is_valid);
}

#[test]
fn test_validate_movement_tolerance_exceeded() {
    // expected 10 m, actual 10.6 m: beyond the 0.5 m tolerance
    let result = validate_movement(
        0, 0, 0, 0,
        10_600_000, 0, 0, 1000,
        10 * M, 0, 0,
    );
    assert!(!result.is_valid);
}

#[test]
fn test_validate_movement_3d_motion() {
    // diagonal motion matching the reported velocity exactly
    let result = validate_movement(
        0, 0, 0, 0,
        10 * M, 10 * M, 10 * M, 1000,
        10 * M, 10 * M, 10 * M,
    );
    assert!(result.is_valid);
}

#[test]
fn test_validate_movement_small_motion() {
    // one millimeter over 100 ms at one centimeter per second
    let result = validate_movement(
        0, 0, 0, 0,
        1000, 0, 0, 100,
        10_000, 0, 0,
    );
    assert!(result.is_valid);
}

#[test]
fn test_validate_movement_negative_velocity() {
    let result = validate_movement(
        10 * M, 0, 0, 0,
        0, 0, 0, 1000,
        -10 * M, 0, 0,
    );
    assert!(result.is_valid);
}

#[test]
fn test_validate_movement_mixed_velocity_signs() {
    let result = validate_movement(
        0, 0, 0, 0,
        10 * M, -5 * M, 0, 1000,
        10 * M, -5 * M, 0,
    );
    assert!(result.is_valid);
}

#[test]
fn test_validate_movement_very_high_speed() {
    // 1000 m in one second, but the reported velocity matches
    let result = validate_movement(
        0, 0, 0, 0,
        1000 * M, 0, 0, 1000,
        1000 * M, 0, 0,
    );
    assert!(result.is_valid);
}

#[test]
fn test_validate_movement_fractional_second() {
    // 5 m over half a second at 10 m/s
    let result = validate_movement(
        0, 0, 0, 0,
        5 * M, 0, 0, 500,
        10 * M, 0, 0,
    );
    assert!(result.is_valid);
}

#[test]
fn test_validate_movement_floating_point_precision() {
    // 0.1 m + 0.2 m is exactly 300_000 units: fixed point has no drift
    let result = validate_movement(
        0, 0, 0, 0,
        100_000 + 200_000, 0, 0, 1000,
        300_000, 0, 0,
    );
    assert!(result.is_valid);
}

#[test]
fn test_validate_movement_large_coordinates() {
    let result = validate_movement(
        1_000_000 * M, 2_000_000 * M, 3_000_000 * M, 0,
        1_000_000 * M + 10 * M, 2_000_000 * M, 3_000_000 * M, 1000,
        10 * M, 0, 0,
    );
    assert!(result.is_valid);
}

#[test]
fn test_validate_movement_negative_coordinates() {
    let result = validate_movement(
        -100 * M, -200 * M, -300 * M, 0,
        -90 * M, -200 * M, -300 * M, 1000,
        10 * M, 0, 0,
    );
    assert!(result.is_valid);
}

#[test]
fn test_movement_validation_boundary_exactly_at_limit() {
    // exactly 60 s between samples: not judged
    let result = validate_movement(
        0, 0, 0, 0,
        100 * M, 0, 0, 60000,
        100 * M, 0, 0,
    );
    assert!(result.is_valid);
}

#[test]
fn test_movement_validation_boundary_just_under_limit() {
    // 59999 ms is still judged, and 10000 m is far too fast for 10 m/s
    let result = validate_movement(
        0, 0, 0, 0,
        10000 * M, 0, 0, 59999,
        10 * M, 0, 0,
    );
    assert!(!result.is_valid);
}

#[test]
fn test_tolerance_boundary_is_inclusive() {
    // actual distance exactly expected + 0.5 m: accepted
    let result = validate_movement(
        0, 0, 0, 0,
        10_500_000, 0, 0, 1000,
        10 * M, 0, 0,
    );
    assert!(result.is_valid);
}

#[test]
fn test_tolerance_exceeded_by_a_micrometer() {
    // one micrometer past expected + 0.5 m: rejected
    let result = validate_movement(
        0, 0, 0, 0,
        10_500_001, 0, 0, 1000,
        10 * M, 0, 0,
    );
    assert!(!result.is_valid);
    assert_eq!(result.corrected_x.unwrap(), 10 * M);
}
