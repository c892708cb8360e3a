//! Worked steps of the Stage-A predictor.

use oxideav_tta::lms::LmsState;

#[test]
fn sample_zero_matches_spec_7_1() {
    let mut s = LmsState::frame_init(2);
    assert_eq!(s.shift, 9);
    assert_eq!(s.round, 256);
    let out = s.step(0);
    assert_eq!(out, 0);
    assert_eq!(s.dl, [0; 8]);
    assert_eq!(s.dx, [0, 0, 0, 0, 1, 2, 2, 4]);
    assert_eq!(s.qm, [0; 8]);
    assert_eq!(s.error, 0);
}

#[test]
fn sample_one_matches_spec_7_2() {
    let mut s = LmsState::frame_init(2);
    let _ = s.step(0);
    let out = s.step(1026);
    assert_eq!(out, 1026);
    assert_eq!(s.dx, [0, 0, 0, 1, 1, 2, 2, 4]);
    assert_eq!(s.dl, [0, 0, 0, 0, 1026, 1026, 1026, 1026]);
    assert_eq!(s.qm, [0; 8]);
    assert_eq!(s.error, 1026);
}

#[test]
fn sample_two_matches_spec_7_3() {
    let mut s = LmsState::frame_init(2);
    let _ = s.step(0);
    let _ = s.step(1026);
    let out = s.step(1038);
    assert_eq!(out, 1056);
    assert_eq!(s.qm, [0, 0, 0, 1, 1, 2, 2, 4]);
    assert_eq!(s.dl, [0, 0, 0, 1026, -2022, -996, 30, 1056]);
    assert_eq!(s.dx, [0, 0, 1, 1, 1, 2, 2, 4]);
    assert_eq!(s.error, 1038);
}
