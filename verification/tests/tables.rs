//! Predictor constants.

use oxideav_tta::tables::{lms_dx_magnitudes, lms_shift};

#[test]
fn shifts_match_spec_3_2() {
    assert_eq!(lms_shift(2), 9);
    assert_eq!(lms_shift(3), 10);
    assert_eq!(lms_shift(1), 10);
}

#[test]
fn dx_magnitudes_match_spec() {
    assert_eq!(lms_dx_magnitudes(), &[1, 2, 2, 4]);
}
