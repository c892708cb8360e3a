//! Channel decorrelation and its inverse.

use oxideav_tta::decorr::{forward, inverse};

#[test]
fn nch_1_passthrough() {
    let mut buf = [42i32];
    inverse(&mut buf);
    assert_eq!(buf, [42]);
}

#[test]
fn forward_inverse_roundtrip_random() {
    let inputs: Vec<Vec<i32>> = vec![
        vec![100, 200],
        vec![-11_124, -5_429],
        vec![-8_367, 8_711],
        vec![1, 2, 3],
        vec![-3, -2, -1],
        vec![1, 2, 3, 4, 5, 6],
        vec![100, -100, 50, -50, 25, -25],
    ];
    for input in inputs {
        let mut buf = input.clone();
        forward(&mut buf);
        inverse(&mut buf);
        assert_eq!(buf, input);
    }
}

#[test]
fn stereo_truncating_divide_discriminator() {
    let mut buf = [-8_367i32, 8_711];
    inverse(&mut buf);
    assert_eq!(buf, [12_895, 4_528]);
}

#[test]
fn cascade_inverse_n_4_walk() {
    let pcm = [10i32, 20, 35, 50];
    let mut enc = pcm;
    forward(&mut enc);
    assert_eq!(enc, [10, 15, 15, 43]);
    inverse(&mut enc);
    assert_eq!(enc, pcm);
}
