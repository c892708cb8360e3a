//! Channel decorrelation against tabulated values.

use oxideav_tta::decorr::{forward, inverse};

#[test]
fn sign_discipline_div2_matches_spec_table() {
    let rows: [(i32, i32, i32); 6] = [
        (14_238, 7_119, 7_119),
        (14_239, 7_119, 7_119),
        (-14_238, -7_119, -7_119),
        (-14_239, -7_119, -7_120),
        (-22_783, -11_391, -11_392),
        (-8_367, -4_183, -4_184),
    ];
    for (x, trunc, shift) in rows {
        assert_eq!(x / 2, trunc, "Rust `/` must truncate toward zero for {x}");
        assert_eq!(x >> 1, shift, "Rust `>>` floors for {x} (the WRONG op)");
        if x < 0 && x % 2 != 0 {
            assert_eq!(trunc - shift, 1, "odd-negative {x} must diverge by 1 LSB");
        } else {
            assert_eq!(trunc, shift, "{x} must agree between `/2` and `>>1`");
        }
    }
}

const NOISE_TAPE_ROWS: &[(i32, i32, i32, i32)] = &[
    (-11_124, -5_429, 133, -10_991),
    (14_239, -3_787, -10_907, 3_332),
    (-110, -12_540, -12_485, -12_595),
    (-22_783, -3_670, 7_722, -15_061),
    (-14_685, 6_873, 14_216, -469),
    (1_239, 3_126, 2_506, 3_745),
    (-12_231, 4_814, 10_930, -1_301),
    (2_857, -5_046, -6_475, -3_618),
    (19_515, 867, -8_891, 10_624),
    (-6_776, -8_898, -5_510, -12_286),
    (5_462, -6_421, -9_152, -3_690),
    (-8_367, 8_711, 12_895, 4_528),
    (2_386, -7_757, -8_950, -6_564),
    (-15_037, -6_365, 1_154, -13_883),
    (7_438, 3_309, -410, 7_028),
    (18_869, -3_248, -12_683, 6_186),
    (-17_255, -1_740, 6_888, -10_367),
    (4_832, -3_216, -5_632, -800),
    (-13_012, 2_822, 9_328, -3_684),
    (-6_378, -754, 2_435, -3_943),
    (6_526, 9_375, 6_112, 12_638),
    (-19_046, -5_143, 4_380, -14_666),
    (-14_118, 6_123, 13_182, -936),
    (14_461, 1_431, -5_800, 8_661),
    (5_814, 4_124, 1_217, 7_031),
    (-3_454, 9_407, 11_134, 7_680),
    (11_601, 716, -5_085, 6_516),
    (3_614, 3_953, 2_146, 5_760),
    (3_648, 10_655, 8_831, 12_479),
    (-7_909, 741, 4_696, -3_213),
    (-12_302, 7_652, 13_803, 1_501),
];

#[test]
fn inverse_reproduces_all_noise_tape_rows() {
    for &(in0, in1, out0, out1) in NOISE_TAPE_ROWS {
        let mut buf = [in0, in1];
        inverse(&mut buf);
        assert_eq!(
            buf,
            [out0, out1],
            "row dec_in=({in0},{in1}) must decorrelate to ({out0},{out1})",
        );
    }
}

#[test]
fn forward_inverse_closes_on_noise_tape_rows() {
    for &(in0, in1, _out0, _out1) in NOISE_TAPE_ROWS {
        let raw = [in0, in1];
        let mut pcm = raw;
        inverse(&mut pcm);
        forward(&mut pcm);
        assert_eq!(pcm, raw, "forward(inverse(raw)) must restore raw {raw:?}");
    }
}

#[test]
fn noise_tape_row_11_pins_truncating_divide() {
    let mut buf = [-8_367i32, 8_711];
    inverse(&mut buf);
    assert_eq!(buf, [12_895, 4_528], "must use `/2`, not `>>1`");

    let wrong_half = -8_367i32 >> 1;
    let wrong_out1 = 8_711 + wrong_half;
    let wrong_out0 = wrong_out1 - (-8_367);
    assert_ne!([wrong_out0, wrong_out1], [12_895, 4_528]);
}

#[test]
fn cascade_n3_forward_intermediates_match_spec_4_1() {
    let pcm = [10i32, 25, 41];
    let mut enc = pcm;
    forward(&mut enc);
    assert_eq!(enc, [15, 16, 33], "N=3 encoder intermediates");
    inverse(&mut enc);
    assert_eq!(enc, pcm, "inverse must restore (A,B,C)");
}

#[test]
fn cascade_n4_forward_intermediates_match_spec_4_1() {
    let pcm = [4i32, 9, 17, 30];
    let mut enc = pcm;
    forward(&mut enc);
    assert_eq!(enc, [5, 8, 13, 24], "N=4 encoder intermediates");

    let (e0, e1, e2, e3) = (5i32, 8, 13, 24);
    let out3 = e3 + e2 / 2;
    let out2 = out3 - e2;
    let out1 = out2 - e1;
    let out0 = out1 - e0;
    assert_eq!([out0, out1, out2, out3], pcm);

    inverse(&mut enc);
    assert_eq!(enc, pcm, "inverse must restore (A,B,C,D)");
}

#[test]
fn cascade_n6_inverse_walk_matches_spec_4_3() {
    let dec_in = [7i32, -3, 11, -5, -9, 40];
    let mut buf = dec_in;
    inverse(&mut buf);
    assert_eq!(
        buf,
        [35, 42, 39, 50, 45, 36],
        "six-step 5.1 cascade walk",
    );
    assert_eq!(-9i32 / 2, -4);
    assert_eq!(-9i32 >> 1, -5);
}

#[test]
fn odd_channel_counts_have_no_special_case() {
    let pcm3 = [100i32, -40, 70];
    let mut e3 = pcm3;
    forward(&mut e3);
    assert_eq!(e3, [-140, 110, 15]);
    inverse(&mut e3);
    assert_eq!(e3, pcm3);

    let pcm5 = [3i32, -7, 12, -1, 25];
    let mut e5 = pcm5;
    forward(&mut e5);
    inverse(&mut e5);
    assert_eq!(e5, pcm5, "N=5 uniform chain must round-trip");
}

#[test]
fn mono_and_empty_are_passthrough_and_bounds_safe() {
    let mut mono = [-12_345i32];
    inverse(&mut mono);
    assert_eq!(mono, [-12_345], "mono is identity");
    forward(&mut mono);
    assert_eq!(mono, [-12_345], "mono forward is identity");

    let mut empty: [i32; 0] = [];
    inverse(&mut empty);
    forward(&mut empty);
}

#[test]
fn forward_inverse_roundtrip_dense_grid_n2_to_n6() {
    let mut state: u64 = 0x9E37_79B9_7F4A_7C15;
    let mut next = || {
        state = state.wrapping_mul(6364136223846793005).wrapping_add(1);
        ((state >> 24) as i32 & 0x1_FFFF) - 0x1_0000
    };
    for nch in 2usize..=6 {
        for _ in 0..4000 {
            let pcm: Vec<i32> = (0..nch).map(|_| next()).collect();
            let mut buf = pcm.clone();
            forward(&mut buf);
            inverse(&mut buf);
            assert_eq!(buf, pcm, "roundtrip failed at nch={nch} pcm={pcm:?}");
        }
    }
}

#[test]
fn cascade_is_stateless_across_sample_slots() {
    let probe = [9_001i32, -1_234, 5_678, -90, 42, -7];
    let mut first = probe;
    inverse(&mut first);

    let mut noise = [-1i32, 2, -3, 4, -5, 6];
    inverse(&mut noise);

    let mut second = probe;
    inverse(&mut second);
    assert_eq!(first, second, "decorrelation must be per-sample stateless");
}
