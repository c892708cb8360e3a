//! Password-derived priming of the Stage-A weights.
//!
//! A password is hashed with the ECMA-182 CRC-64 (most significant bit
//! first, register initialised to all ones and inverted at the end). Each of
//! the eight digest bytes, lowest first and read as a signed number, becomes
//! one initial weight.

use crate::bits::lemma_low_byte;
use crate::lms::zero_taps;
use vstd::prelude::*;

verus! {

/// ECMA-182 CRC-64 polynomial, unreflected.
pub const POLY: u64 = 0x42F0_E1EB_A9EA_3693;

/// The register after one message bit has been shifted through.
pub open spec fn shift_bit64(c: u64) -> u64 {
    if c & 0x8000_0000_0000_0000 != 0 {
        (c << 1) ^ 0x42F0_E1EB_A9EA_3693
    } else {
        c << 1
    }
}

/// The register after `n` bits have been shifted through.
pub open spec fn shift_bits64(c: u64, n: nat) -> u64
    decreases n,
{
    if n == 0 {
        c
    } else {
        shift_bit64(shift_bits64(c, (n - 1) as nat))
    }
}

/// The register after a whole message.
pub open spec fn fold64(c: u64, bytes: Seq<u8>) -> u64
    decreases bytes.len(),
{
    if bytes.len() == 0 {
        c
    } else {
        shift_bits64(fold64(c, bytes.drop_last()) ^ ((bytes.last() as u64) << 56), 8)
    }
}

/// The CRC-64 of a message.
pub open spec fn crc64_spec(bytes: Seq<u8>) -> u64 {
    fold64(0xFFFF_FFFF_FFFF_FFFF, bytes) ^ 0xFFFF_FFFF_FFFF_FFFF
}

/// Byte `i` of the digest, lowest first, as a signed number.
pub open spec fn digest_lane(digest: u64, i: int) -> i32 {
    let b = (digest >> ((8 * i) as u64)) & 0xFF;
    if b < 128 {
        b as i32
    } else {
        (b - 256) as i32
    }
}

/// The initial weights a password stands for.
pub open spec fn priming_spec(password: Seq<u8>) -> Seq<i32> {
    Seq::new(8, |i: int| digest_lane(crc64_spec(password), i))
}

/// Compute the ECMA-182 CRC-64 of `data`.
pub fn crc64_ecma182(data: &[u8]) -> (r: u64)
    ensures
        r == crc64_spec(data@),
{
    let mut crc: u64 = 0xFFFF_FFFF_FFFF_FFFF;
    let mut i: usize = 0;
    assert(data@.take(0) =~= Seq::<u8>::empty());
    while i < data.len()
        invariant
            i <= data@.len(),
            crc == fold64(0xFFFF_FFFF_FFFF_FFFF, data@.take(i as int)),
        decreases data@.len() - i,
    {
        let x: u64 = crc ^ ((data[i] as u64) << 56);
        crc = x;
        let mut j: u32 = 0;
        while j < 8
            invariant
                j <= 8,
                crc == shift_bits64(x, j as nat),
            decreases 8 - j,
        {
            crc = if crc & 0x8000_0000_0000_0000 != 0 {
                (crc << 1) ^ POLY
            } else {
                crc << 1
            };
            j = j + 1;
        }
        assert(data@.take(i + 1).drop_last() =~= data@.take(i as int));
        i = i + 1;
    }
    assert(data@.take(i as int) =~= data@);
    crc ^ 0xFFFF_FFFF_FFFF_FFFF
}

/// Derive the eight initial weights from a password.
pub fn derive_qm_priming(password: &[u8]) -> (r: [i32; 8])
    ensures
        r@ == priming_spec(password@),
{
    let digest: u64 = crc64_ecma182(password);
    let mut out: [i32; 8] = [0; 8];
    let mut i: usize = 0;
    while i < 8
        invariant
            i <= 8,
            forall|j: int| 0 <= j < i ==> out@[j] == digest_lane(digest, j),
        decreases 8 - i,
    {
        let distance: u64 = 8 * (i as u64);
        let b: u64 = (digest >> distance) & 0xFF;
        proof {
            lemma_low_byte(digest >> distance);
        }
        out[i] = if b < 128 {
            b as i32
        } else {
            b as i32 - 256
        };
        i = i + 1;
    }
    assert(out@ =~= priming_spec(password@));
    out
}

/// The empty password hashes to zero and primes every weight with zero,
/// which is what an unprimed stream starts from.
pub proof fn law_empty_password_primes_zero()
    ensures
        crc64_spec(Seq::empty()) == 0,
        priming_spec(Seq::empty()) == zero_taps(),
{
    assert(0xFFFF_FFFF_FFFF_FFFFu64 ^ 0xFFFF_FFFF_FFFF_FFFFu64 == 0) by (bit_vector);
    law_weights_spell_digest(Seq::empty());
    let w = priming_spec(Seq::empty());
    assert(w[0] == 0 && w[1] == 0 && w[2] == 0 && w[3] == 0 && w[4] == 0 && w[5] == 0 && w[6] == 0
        && w[7] == 0);
    assert(priming_spec(Seq::empty()) =~= zero_taps());
}

/// What one more byte does to the digest. With the inversion taken off, the
/// register moves up by eight bits, and each one bit of its old top byte,
/// combined with the new byte, adds the remainder of that power of two by the
/// polynomial. The empty message has digest zero.
#[verifier::rlimit(60)]
pub proof fn law_crc64_takes_in_byte(bytes: Seq<u8>, b: u8)
    ensures
        crc64_spec(Seq::empty()) == 0,
        ({
            let r = crc64_spec(bytes) ^ 0xFFFF_FFFF_FFFF_FFFF;
            let t = (r >> 56) ^ (b as u64);
            crc64_spec(bytes.push(b)) ^ 0xFFFF_FFFF_FFFF_FFFF == (r << 8)
                ^ (if t & 1 != 0 { 0x42F0_E1EB_A9EA_3693 } else { 0u64 })
                ^ (if t & 2 != 0 { 0x85E1_C3D7_53D4_6D26 } else { 0u64 })
                ^ (if t & 4 != 0 { 0x4933_6645_0E42_ECDF } else { 0u64 })
                ^ (if t & 8 != 0 { 0x9266_CC8A_1C85_D9BE } else { 0u64 })
                ^ (if t & 16 != 0 { 0x663D_78FF_90E1_85EF } else { 0u64 })
                ^ (if t & 32 != 0 { 0xCC7A_F1FF_21C3_0BDE } else { 0u64 })
                ^ (if t & 64 != 0 { 0xDA05_0215_EA6C_212F } else { 0u64 })
                ^ (if t & 128 != 0 { 0xF6FA_E5C0_7D32_74CD } else { 0u64 })
        }),
{
    law_empty_password_primes_zero();
    let c = fold64(0xFFFF_FFFF_FFFF_FFFF, bytes);
    let w = b as u64;
    let x0 = c ^ (w << 56);
    let x1 = shift_bit64(x0);
    let x2 = shift_bit64(x1);
    let x3 = shift_bit64(x2);
    let x4 = shift_bit64(x3);
    let x5 = shift_bit64(x4);
    let x6 = shift_bit64(x5);
    let x7 = shift_bit64(x6);
    let x8 = shift_bit64(x7);
    reveal_with_fuel(shift_bits64, 9);
    assert(bytes.push(b).drop_last() =~= bytes);
    assert(fold64(0xFFFF_FFFF_FFFF_FFFF, bytes.push(b)) == x8);
    let r = crc64_spec(bytes) ^ 0xFFFF_FFFF_FFFF_FFFF;
    let t = (r >> 56) ^ w;
    let f = 0xFFFF_FFFF_FFFF_FFFFu64;
    assert((c ^ f) ^ f == c && (x8 ^ f) ^ f == x8 && x8 == (r << 8)
        ^ (if t & 1 != 0 { 0x42F0_E1EB_A9EA_3693 } else { 0u64 })
        ^ (if t & 2 != 0 { 0x85E1_C3D7_53D4_6D26 } else { 0u64 })
        ^ (if t & 4 != 0 { 0x4933_6645_0E42_ECDF } else { 0u64 })
        ^ (if t & 8 != 0 { 0x9266_CC8A_1C85_D9BE } else { 0u64 })
        ^ (if t & 16 != 0 { 0x663D_78FF_90E1_85EF } else { 0u64 })
        ^ (if t & 32 != 0 { 0xCC7A_F1FF_21C3_0BDE } else { 0u64 })
        ^ (if t & 64 != 0 { 0xDA05_0215_EA6C_212F } else { 0u64 })
        ^ (if t & 128 != 0 { 0xF6FA_E5C0_7D32_74CD } else { 0u64 })) by (bit_vector)
        requires
            f == 0xFFFF_FFFF_FFFF_FFFFu64,
            r == (c ^ f) ^ f,
            w < 256,
            t == (r >> 56) ^ w,
            x0 == c ^ (w << 56),
            x1 == shift_bit64(x0),
            x2 == shift_bit64(x1),
            x3 == shift_bit64(x2),
            x4 == shift_bit64(x3),
            x5 == shift_bit64(x4),
            x6 == shift_bit64(x5),
            x7 == shift_bit64(x6),
            x8 == shift_bit64(x7),
    ;
}

/// The eight weights spell out the digest: each is one of its bytes, lowest
/// first, read as a signed number.
pub proof fn law_weights_spell_digest(password: Seq<u8>)
    ensures
        priming_spec(password).len() == 8,
        forall|i: int| 0 <= i < 8 ==> -128 <= #[trigger] priming_spec(password)[i] < 128,
        ({
            let w = priming_spec(password);
            crc64_spec(password) == w[0] as int % 0x100 + 0x100 * (w[1] as int % 0x100) + 0x1_0000 * (
            w[2] as int % 0x100) + 0x100_0000 * (w[3] as int % 0x100) + 0x1_0000_0000 * (
            w[4] as int % 0x100) + 0x100_0000_0000 * (w[5] as int % 0x100) + 0x1_0000_0000_0000 * (
            w[6] as int % 0x100) + 0x100_0000_0000_0000 * (w[7] as int % 0x100)
        }),
{
    let d = crc64_spec(password);
    let w = priming_spec(password);
    let b0 = (d >> 0) & 0xFF;
    let b1 = (d >> 8) & 0xFF;
    let b2 = (d >> 16) & 0xFF;
    let b3 = (d >> 24) & 0xFF;
    let b4 = (d >> 32) & 0xFF;
    let b5 = (d >> 40) & 0xFF;
    let b6 = (d >> 48) & 0xFF;
    let b7 = (d >> 56) & 0xFF;
    assert(d == b0 + 0x100 * b1 + 0x1_0000 * b2 + 0x100_0000 * b3 + 0x1_0000_0000 * b4
        + 0x100_0000_0000 * b5 + 0x1_0000_0000_0000 * b6 + 0x100_0000_0000_0000 * b7)
        by (bit_vector)
        requires
            b0 == (d >> 0) & 0xFF,
            b1 == (d >> 8) & 0xFF,
            b2 == (d >> 16) & 0xFF,
            b3 == (d >> 24) & 0xFF,
            b4 == (d >> 32) & 0xFF,
            b5 == (d >> 40) & 0xFF,
            b6 == (d >> 48) & 0xFF,
            b7 == (d >> 56) & 0xFF,
    ;
    assert forall|i: int| 0 <= i < 8 implies -128 <= #[trigger] w[i] < 128 && w[i] as int % 0x100
        == (d >> ((8 * i) as u64)) & 0xFF by {
        lemma_low_byte(d >> ((8 * i) as u64));
    }
    assert(w[0] as int % 0x100 == b0 && w[1] as int % 0x100 == b1 && w[2] as int % 0x100 == b2
        && w[3] as int % 0x100 == b3 && w[4] as int % 0x100 == b4 && w[5] as int % 0x100 == b5
        && w[6] as int % 0x100 == b6 && w[7] as int % 0x100 == b7);
}

/// The digest of a message in two parts carries on from the first part: equal
/// digests of two beginnings stay equal, and different ones stay different,
/// whatever the same ending is.
pub proof fn law_crc64_carries_on(a: Seq<u8>, b: Seq<u8>, rest: Seq<u8>)
    ensures
        crc64_spec(a + rest) == crc64_spec(b + rest) <==> crc64_spec(a) == crc64_spec(b),
{
    let f = 0xFFFF_FFFF_FFFF_FFFFu64;
    let x = fold64(f, a);
    let y = fold64(f, b);
    lemma_fold64_concat(f, a, rest);
    lemma_fold64_concat(f, b, rest);
    lemma_step_injective64(fold64(x, rest), fold64(y, rest), f, 0, 0);
    lemma_step_injective64(x, y, f, 0, 0);
    if fold64(x, rest) == fold64(y, rest) {
        lemma_fold64_injective(x, y, rest);
    }
}

/// The digest takes in every byte: changing any one byte of a message, at any
/// place, changes it.
pub proof fn law_crc64_finds_changed_byte(bytes: Seq<u8>, i: int, b: u8)
    requires
        0 <= i < bytes.len(),
        b != bytes[i],
    ensures
        crc64_spec(bytes.update(i, b)) != crc64_spec(bytes),
{
    let f = 0xFFFF_FFFF_FFFF_FFFFu64;
    let head = bytes.take(i);
    let rest = bytes.skip(i + 1);
    let c = fold64(f, head);
    let p = head.push(bytes[i]);
    let q = head.push(b);
    assert(p.drop_last() =~= head && q.drop_last() =~= head);
    let v = (bytes[i] as u64) << 56;
    let w = (b as u64) << 56;
    lemma_step_injective64(v, w, c, bytes[i] as u64, b as u64);
    if fold64(f, p) == fold64(f, q) {
        lemma_shift64_injective(c ^ v, c ^ w, 8);
    }
    lemma_step_injective64(fold64(f, p), fold64(f, q), f, 0, 0);
    law_crc64_carries_on(p, q, rest);
    assert(p + rest =~= bytes);
    assert(q + rest =~= bytes.update(i, b));
}

/// Every byte of a password counts: passwords of the same length that differ
/// in exactly one byte, at any place, prime different weights.
pub proof fn law_priming_takes_in_every_byte(password: Seq<u8>, i: int, b: u8)
    requires
        0 <= i < password.len(),
        b != password[i],
    ensures
        priming_spec(password.update(i, b)) != priming_spec(password),
{
    law_crc64_finds_changed_byte(password, i, b);
    law_weights_spell_digest(password);
    law_weights_spell_digest(password.update(i, b));
}

/// A password one byte longer is another password, whatever the byte.
pub proof fn law_priming_tells_last_bytes_apart(password: Seq<u8>, a: u8, b: u8)
    requires
        a != b,
    ensures
        priming_spec(password.push(a)) != priming_spec(password.push(b)),
{
    law_priming_takes_in_every_byte(password.push(a), password.len() as int, b);
    assert(password.push(a).update(password.len() as int, b) =~= password.push(b));
}

proof fn lemma_fold64_concat(c: u64, a: Seq<u8>, b: Seq<u8>)
    ensures
        fold64(c, a + b) == fold64(fold64(c, a), b),
    decreases b.len(),
{
    if b.len() == 0 {
        assert(a + b =~= a);
    } else {
        assert((a + b).drop_last() =~= a + b.drop_last());
        lemma_fold64_concat(c, a, b.drop_last());
    }
}

/// No part of a register step loses anything.
proof fn lemma_step_injective64(x: u64, y: u64, c: u64, v: u64, w: u64)
    ensures
        c ^ x == c ^ y ==> x == y,
        x ^ c == y ^ c ==> x == y,
        shift_bit64(x) == shift_bit64(y) ==> x == y,
        v < 256 && w < 256 && v << 56 == w << 56 ==> v == w,
{
    assert((c ^ x == c ^ y ==> x == y) && (x ^ c == y ^ c ==> x == y) && (shift_bit64(x)
        == shift_bit64(y) ==> x == y) && (v < 256 && w < 256 && v << 56 == w << 56 ==> v == w))
        by (bit_vector);
}

proof fn lemma_shift64_injective(x: u64, y: u64, n: nat)
    requires
        shift_bits64(x, n) == shift_bits64(y, n),
    ensures
        x == y,
    decreases n,
{
    if n > 0 {
        let a = shift_bits64(x, (n - 1) as nat);
        let b = shift_bits64(y, (n - 1) as nat);
        lemma_step_injective64(a, b, 0, 0, 0);
        lemma_shift64_injective(x, y, (n - 1) as nat);
    }
}

proof fn lemma_fold64_injective(x: u64, y: u64, bytes: Seq<u8>)
    requires
        fold64(x, bytes) == fold64(y, bytes),
    ensures
        x == y,
    decreases bytes.len(),
{
    if bytes.len() > 0 {
        let a = fold64(x, bytes.drop_last());
        let b = fold64(y, bytes.drop_last());
        let w = (bytes.last() as u64) << 56;
        lemma_shift64_injective(a ^ w, b ^ w, 8);
        lemma_step_injective64(a, b, w, 0, 0);
        lemma_fold64_injective(x, y, bytes.drop_last());
    }
}

} // verus!
