//! Password digests and the priming derived from them.

use oxideav_tta::password::{crc64_ecma182, derive_qm_priming};

#[test]
fn crc64_self_consistency() {
    assert_eq!(crc64_ecma182(b""), 0);
    let a = crc64_ecma182(&[0x00]);
    let b = crc64_ecma182(&[0x00]);
    assert_eq!(a, b);
    let abc = crc64_ecma182(b"ABC");
    let abc_again = crc64_ecma182(b"ABC");
    assert_eq!(abc, abc_again);
    assert_ne!(abc, 0);
}

#[test]
fn empty_password_yields_zero_priming() {
    assert_eq!(crc64_ecma182(b""), 0);
    assert_eq!(derive_qm_priming(b""), [0; 8]);
}

#[test]
fn sign_extension_propagates_high_bit() {
    let prime = derive_qm_priming(b"x");
    let digest = crc64_ecma182(b"x");
    let lo = digest as u32;
    let hi = (digest >> 32) as u32;
    for (i, &lane) in prime.iter().take(4).enumerate() {
        let raw_byte = ((lo >> (8 * i)) & 0xFF) as u8;
        let signed = raw_byte as i8 as i32;
        assert_eq!(lane, signed);
    }
    for (i, &lane) in prime.iter().skip(4).take(4).enumerate() {
        let raw_byte = ((hi >> (8 * i)) & 0xFF) as u8;
        let signed = raw_byte as i8 as i32;
        assert_eq!(lane, signed);
    }
}
