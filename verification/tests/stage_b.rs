//! Worked steps of the Stage-B predictor.

use oxideav_tta::stage_b::StageBState;

#[test]
fn positive_prev_walk() {
    let mut s = StageBState::frame_init();
    assert_eq!(s.step(0), 0);
    assert_eq!(s.step(1026), 1026);
    assert_eq!(s.step(1056), 2049);
}

#[test]
fn negative_prev_arithmetic_shift() {
    let mut s = StageBState::frame_init();
    s.prev = -910;
    let s_b = s.step(-1051);
    assert_eq!(s_b, -1933);
    assert_eq!(s.prev, -1933);
}
