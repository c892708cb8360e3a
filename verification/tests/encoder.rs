//! Rice coding, encoder against decoder.

use oxideav_tta::bitwriter::BitWriter;
use oxideav_tta::rice::{rice_encode_one, RiceState};

#[test]
fn rice_encode_decode_roundtrip() {
    let residuals: Vec<i32> = vec![
        0, 1026, 1038, 1074, 1099, 1086, 1078, 873, -19, 0, 0, -42, 5, -7, 12, -3, 1234, -1234,
        100, -100,
    ];
    let mut writer = BitWriter::new();
    let mut state = RiceState::frame_init();
    let mut k_states_after = Vec::new();
    for &e in &residuals {
        rice_encode_one(&mut writer, &mut state, e);
        k_states_after.push(state);
    }
    let body = writer.finish_byte_aligned();

    let mut reader = oxideav_tta::bitreader::BitReader::new(&body);
    let mut state = RiceState::frame_init();
    for (i, &expected_e) in residuals.iter().enumerate() {
        let e = oxideav_tta::rice::decode_one(&mut reader, &mut state).unwrap();
        assert_eq!(e, expected_e, "residual mismatch at i={i}");
        assert_eq!(state, k_states_after[i], "tracker state mismatch at i={i}");
    }
}
