//! Packing samples into little-endian byte streams and back.

use crate::header::byte_width;
use vstd::arithmetic::power2::{lemma2_to64, pow2};
use vstd::prelude::*;

verus! {

/// The low `8 * width` bits of a sample, little-endian, for a width of two
/// or three bytes.
pub open spec fn sample_bytes(s: i32, width: int) -> Seq<u8> {
    if width == 2 {
        let m = s as int % 0x1_0000;
        seq![(m % 0x100) as u8, (m / 0x100) as u8]
    } else {
        let m = s as int % 0x100_0000;
        seq![(m % 0x100) as u8, (m / 0x100 % 0x100) as u8, (m / 0x1_0000) as u8]
    }
}

/// The packed form of `samples`.
pub open spec fn packed(samples: Seq<i32>, width: int) -> Seq<u8>
    decreases samples.len(),
{
    if samples.len() == 0 {
        Seq::empty()
    } else {
        packed(samples.drop_last(), width) + sample_bytes(samples.last(), width)
    }
}

/// The signed number in the `width` bytes at offset `at`.
pub open spec fn sample_at_offset(bytes: Seq<u8>, at: int, width: int) -> i32 {
    if width == 2 {
        let m = bytes[at] + 0x100 * bytes[at + 1];
        if m < 0x8000 {
            m as i32
        } else {
            (m - 0x1_0000) as i32
        }
    } else {
        let m = bytes[at] + 0x100 * bytes[at + 1] + 0x1_0000 * bytes[at + 2];
        if m < 0x80_0000 {
            m as i32
        } else {
            (m - 0x100_0000) as i32
        }
    }
}

/// The samples a packed byte string holds; bytes after the last whole sample
/// are left out.
pub open spec fn unpacked(bytes: Seq<u8>, width: int) -> Seq<i32> {
    Seq::new(
        (bytes.len() as int / width) as nat,
        |i: int| sample_at_offset(bytes, i * width, width),
    )
}

/// Whether a sample fits a signed number of `width` bytes.
pub open spec fn fits_width(s: i32, width: int) -> bool {
    if width == 2 {
        -0x8000 <= s < 0x8000
    } else {
        -0x80_0000 <= s < 0x80_0000
    }
}

/// What a sample of the given width is multiplied by to fill its bytes from
/// the top: widths of 17 to 23 bits leave the low bits of three bytes clear.
pub open spec fn alignment(bits_per_sample: u16) -> i32 {
    if bits_per_sample == 17 {
        128
    } else if bits_per_sample == 18 {
        64
    } else if bits_per_sample == 19 {
        32
    } else if bits_per_sample == 20 {
        16
    } else if bits_per_sample == 21 {
        8
    } else if bits_per_sample == 22 {
        4
    } else if bits_per_sample == 23 {
        2
    } else {
        1
    }
}

/// Samples moved to the top of their bytes.
pub open spec fn aligned(samples: Seq<i32>, bits_per_sample: u16) -> Seq<i32> {
    Seq::new(samples.len(), |i: int| samples[i].wrapping_mul(alignment(bits_per_sample)))
}

fn alignment_of(bits_per_sample: u16) -> (r: i32)
    ensures
        r == alignment(bits_per_sample),
{
    match bits_per_sample {
        17 => 128,
        18 => 64,
        19 => 32,
        20 => 16,
        21 => 8,
        22 => 4,
        23 => 2,
        _ => 1,
    }
}

/// Pack interleaved samples: two little-endian bytes each for a width of up
/// to 16 bits, three for up to 24. Widths of 17 to 23 bits are aligned to the
/// most significant bit of their three bytes; bits that do not fit are cut
/// off.
pub fn pack_pcm(samples: &[i32], bits_per_sample: u16) -> (out: Vec<u8>)
    requires
        9 <= bits_per_sample <= 24,
    ensures
        out@ == packed(aligned(samples@, bits_per_sample), byte_width(bits_per_sample)),
{
    let factor: i32 = alignment_of(bits_per_sample);
    let mut moved: Vec<i32> = Vec::new();
    let mut i: usize = 0;
    while i < samples.len()
        invariant
            i <= samples@.len(),
            factor == alignment(bits_per_sample),
            moved@ == aligned(samples@, bits_per_sample).take(i as int),
        decreases samples@.len() - i,
    {
        moved.push(samples[i].wrapping_mul(factor));
        assert(moved@ =~= aligned(samples@, bits_per_sample).take(i + 1));
        i = i + 1;
    }
    assert(moved@ =~= aligned(samples@, bits_per_sample));
    pack_width(moved.as_slice(), bits_per_sample > 16)
}

/// Pack samples into three bytes each, or two.
pub fn pack_width(samples: &[i32], three: bool) -> (out: Vec<u8>)
    ensures
        out@ == packed(
            samples@,
            if three {
                3
            } else {
                2
            },
        ),
{
    let mut out: Vec<u8> = Vec::new();
    let ghost width: int = if three {
        3
    } else {
        2
    };
    let mut i: usize = 0;
    assert(samples@.take(0) =~= Seq::<i32>::empty());
    while i < samples.len()
        invariant
            i <= samples@.len(),
            width == if three {
                3int
            } else {
                2int
            },
            out@ == packed(samples@.take(i as int), width),
        decreases samples@.len() - i,
    {
        let s: i32 = samples[i];
        let v: u32 = if s < 0 {
            (s as i64 + 0x1_0000_0000) as u32
        } else {
            s as u32
        };
        let ghost before = out@;
        out.push((v % 0x100) as u8);
        out.push((v / 0x100 % 0x100) as u8);
        if three {
            out.push((v / 0x1_0000 % 0x100) as u8);
        }
        proof {
            lemma_low_bytes(s, v);
            assert(out@ =~= before + sample_bytes(s, width));
            let next = samples@.take(i + 1);
            assert(next.drop_last() =~= samples@.take(i as int));
        }
        i = i + 1;
    }
    assert(samples@.take(i as int) =~= samples@);
    out
}

#[verifier::rlimit(60)]
proof fn lemma_low_bytes(s: i32, v: u32)
    requires
        v == if s < 0 {
            s + 0x1_0000_0000
        } else {
            s as int
        },
    ensures
        (s as int % 0x1_0000) % 0x100 == v % 0x100,
        (s as int % 0x1_0000) / 0x100 == v / 0x100 % 0x100,
        (s as int % 0x100_0000) % 0x100 == v % 0x100,
        (s as int % 0x100_0000) / 0x100 % 0x100 == v / 0x100 % 0x100,
        (s as int % 0x100_0000) / 0x1_0000 == v / 0x1_0000 % 0x100,
{
    let a = v as int % 0x100;
    let b = v as int / 0x100 % 0x100;
    let c = v as int / 0x1_0000 % 0x100;
    let d = v as int / 0x100_0000;
    assert(v == a + 0x100 * b + 0x1_0000 * c + 0x100_0000 * d);
    let k: int = if s < 0 {
        0x1_0000
    } else {
        0
    };
    let low2 = a + 0x100 * b;
    let high2 = c + 0x100 * d - k;
    vstd::arithmetic::div_mod::lemma_fundamental_div_mod_converse(s as int, 0x1_0000, high2, low2);
    let j: int = if s < 0 {
        0x100
    } else {
        0
    };
    let low3 = a + 0x100 * b + 0x1_0000 * c;
    vstd::arithmetic::div_mod::lemma_fundamental_div_mod_converse(
        s as int,
        0x100_0000,
        d - j,
        low3,
    );
}

/// The bytes of a sample that fits read back as that sample.
#[verifier::rlimit(60)]
proof fn lemma_sample_round_trip(s: i32, width: int)
    requires
        width == 2 || width == 3,
        fits_width(s, width),
    ensures
        sample_at_offset(sample_bytes(s, width), 0, width) == s,
{
    if width == 2 {
        let m = s as int % 0x1_0000;
        assert(m == if s < 0 {
            s + 0x1_0000
        } else {
            s as int
        });
    } else {
        let m = s as int % 0x100_0000;
        assert(m == if s < 0 {
            s + 0x100_0000
        } else {
            s as int
        });
    }
}

/// Reading a sample looks at its own bytes alone.
proof fn lemma_sample_local(x: Seq<u8>, at: int, y: Seq<u8>, from: int, width: int)
    requires
        width == 2 || width == 3,
        forall|j: int| 0 <= j < width ==> x[at + j] == #[trigger] y[from + j],
    ensures
        sample_at_offset(x, at, width) == sample_at_offset(y, from, width),
{
    assert(x[at + 0] == y[from + 0]);
    assert(x[at + 1] == y[from + 1]);
    assert(width == 3 ==> x[at + 2] == y[from + 2]);
}

/// Read samples of three bytes each, or two. A last group of bytes too short
/// for a sample is left out.
pub fn unpack_width(bytes: &[u8], three: bool) -> (out: Vec<i32>)
    ensures
        out@ == unpacked(
            bytes@,
            if three {
                3
            } else {
                2
            },
        ),
{
    let mut out: Vec<i32> = Vec::new();
    let width: usize = if three {
        3
    } else {
        2
    };
    let n: usize = bytes.len() / width;
    let mut i: usize = 0;
    let mut at: usize = 0;
    while i < n
        invariant
            i <= n,
            width == if three {
                3int
            } else {
                2int
            },
            n == bytes.len() as int / width as int,
            at == i * width,
            out@.len() == i,
            forall|j: int|
                0 <= j < i ==> #[trigger] out@[j] == sample_at_offset(
                    bytes@,
                    j * width,
                    width as int,
                ),
        decreases n - i,
    {
        assert(at + width <= bytes.len());
        let low: i32 = bytes[at] as i32 + 0x100 * (bytes[at + 1] as i32);
        let s: i32 = if three {
            let m: i32 = low + 0x1_0000 * (bytes[at + 2] as i32);
            if m < 0x80_0000 {
                m
            } else {
                m - 0x100_0000
            }
        } else if low < 0x8000 {
            low
        } else {
            low - 0x1_0000
        };
        out.push(s);
        i = i + 1;
        at = at + width;
    }
    assert(out@ =~= unpacked(bytes@, width as int));
    out
}

/// Packing takes `width` bytes per sample.
pub proof fn lemma_packed_len(samples: Seq<i32>, width: int)
    requires
        width == 2 || width == 3,
    ensures
        packed(samples, width).len() == samples.len() * width,
    decreases samples.len(),
{
    if samples.len() > 0 {
        lemma_packed_len(samples.drop_last(), width);
        assert(samples.len() * width == (samples.len() - 1) * width + width) by (nonlinear_arith);
    }
}

/// Samples that fit the width come back unchanged from their packed form.
pub proof fn law_pack_round_trip(samples: Seq<i32>, width: int)
    requires
        width == 2 || width == 3,
        forall|i: int| 0 <= i < samples.len() ==> fits_width(#[trigger] samples[i], width),
    ensures
        unpacked(packed(samples, width), width) == samples,
    decreases samples.len(),
{
    lemma_packed_len(samples, width);
    let bytes = packed(samples, width);
    if samples.len() > 0 {
        let init = samples.drop_last();
        assert forall|i: int| 0 <= i < init.len() implies fits_width(#[trigger] init[i], width) by {
            assert(init[i] == samples[i]);
        }
        law_pack_round_trip(init, width);
        lemma_packed_len(init, width);
        let prefix = packed(init, width);
        let n = init.len() as int;
        let tail = sample_bytes(samples.last(), width);
        lemma_sample_round_trip(samples.last(), width);
        assert(bytes == prefix + tail);
        assert forall|i: int| 0 <= i < samples.len() implies #[trigger] sample_at_offset(
            bytes,
            i * width,
            width,
        ) == samples[i] by {
            assert(i * width >= 0) by (nonlinear_arith)
                requires
                    i >= 0,
                    width >= 0,
            ;
            if i < n {
                assert(i * width + width <= n * width) by (nonlinear_arith)
                    requires
                        i + 1 <= n,
                        width >= 0,
                ;
                lemma_sample_local(bytes, i * width, prefix, i * width, width);
                assert(unpacked(prefix, width)[i] == init[i]);
            } else {
                lemma_sample_local(bytes, n * width, tail, 0, width);
            }
        }
        assert(bytes.len() as int / width == samples.len()) by {
            vstd::arithmetic::div_mod::lemma_div_multiples_vanish(samples.len() as int, width);
        }
    }
    assert(unpacked(bytes, width) =~= samples);
}

/// Packing is lossless for every width: samples that fit it are read back
/// from the top bits of their bytes, and the bits below are clear. Widths
/// that fill their bytes are read back as they are.
pub proof fn law_pack_pcm_round_trip(samples: Seq<i32>, bits_per_sample: u16)
    requires
        16 <= bits_per_sample <= 24,
        forall|i: int|
            0 <= i < samples.len() ==> fits_bits(#[trigger] samples[i], bits_per_sample),
    ensures
        ({
            let width = byte_width(bits_per_sample);
            let read = unpacked(packed(aligned(samples, bits_per_sample), width), width);
            &&& read.len() == samples.len()
            &&& forall|i: int|
                0 <= i < samples.len() ==> #[trigger] read[i] == samples[i] * alignment(
                    bits_per_sample,
                )
        }),
{
    let width = byte_width(bits_per_sample);
    let moved = aligned(samples, bits_per_sample);
    assert forall|i: int| 0 <= i < moved.len() implies fits_width(#[trigger] moved[i], width)
        && moved[i] == samples[i] * alignment(bits_per_sample) by {
        assert(fits_bits(samples[i], bits_per_sample));
        lemma_aligned_fits(samples[i], bits_per_sample);
    }
    law_pack_round_trip(moved, width);
}

/// Whether a sample fits a signed number of so many bits.
pub open spec fn fits_bits(s: i32, bits_per_sample: u16) -> bool {
    if bits_per_sample <= 16 {
        -0x8000 <= s < 0x8000
    } else {
        let top = 0x80_0000int / alignment(bits_per_sample) as int;
        -top <= s < top
    }
}

proof fn lemma_aligned_fits(s: i32, bits_per_sample: u16)
    requires
        16 <= bits_per_sample <= 24,
        fits_bits(s, bits_per_sample),
    ensures
        s.wrapping_mul(alignment(bits_per_sample)) == s * alignment(bits_per_sample),
        fits_width(s.wrapping_mul(alignment(bits_per_sample)), byte_width(bits_per_sample)),
{
}

/// The number read from a sample's bytes fits their width and has exactly
/// those bytes.
proof fn lemma_bytes_round_trip(t: Seq<u8>, width: int)
    requires
        width == 2 || width == 3,
        t.len() == width,
    ensures
        fits_width(sample_at_offset(t, 0, width), width),
        sample_bytes(sample_at_offset(t, 0, width), width) == t,
{
    let s = sample_at_offset(t, 0, width);
    if width == 2 {
        let m = t[0] + 0x100 * t[1];
        assert(s as int % 0x1_0000 == m) by {
            if m >= 0x8000 {
                vstd::arithmetic::div_mod::lemma_fundamental_div_mod_converse(
                    s as int,
                    0x1_0000,
                    -1,
                    m,
                );
            }
        }
        assert(m % 0x100 == t[0] && m / 0x100 == t[1]);
    } else {
        let m = t[0] + 0x100 * t[1] + 0x1_0000 * t[2];
        assert(s as int % 0x100_0000 == m) by {
            if m >= 0x80_0000 {
                vstd::arithmetic::div_mod::lemma_fundamental_div_mod_converse(
                    s as int,
                    0x100_0000,
                    -1,
                    m,
                );
            }
        }
        assert(m % 0x100 == t[0] && m / 0x100 % 0x100 == t[1] && m / 0x1_0000 == t[2]);
    }
    assert(sample_bytes(s, width) =~= t);
}

/// Every sample read from packed bytes fits the width, and a whole number of
/// samples packs back into the very same bytes.
pub proof fn law_unpack_round_trip(bytes: Seq<u8>, width: int)
    requires
        width == 2 || width == 3,
        bytes.len() as int % width == 0,
    ensures
        packed(unpacked(bytes, width), width) == bytes,
        forall|i: int|
            0 <= i < unpacked(bytes, width).len() ==> fits_width(
                #[trigger] unpacked(bytes, width)[i],
                width,
            ),
    decreases bytes.len(),
{
    let n = bytes.len() as int / width;
    assert(bytes.len() == n * width) by (nonlinear_arith)
        requires
            bytes.len() as int % width == 0,
            n == bytes.len() as int / width,
            width > 0,
    ;
    let all = unpacked(bytes, width);
    if n == 0 {
        assert(0 * width == 0) by (nonlinear_arith);
        assert(packed(all, width) =~= bytes);
    } else {
        let k = (n - 1) * width;
        assert(k + width == n * width && k >= 0) by (nonlinear_arith)
            requires
                k == (n - 1) * width,
                n >= 1,
                width > 0,
        ;
        let init = bytes.take(k);
        let last = bytes.skip(k);
        assert(init.len() as int % width == 0 && init.len() as int / width == n - 1) by {
            vstd::arithmetic::div_mod::lemma_mod_multiples_basic(n - 1, width);
            vstd::arithmetic::div_mod::lemma_div_multiples_vanish(n - 1, width);
        }
        law_unpack_round_trip(init, width);
        lemma_bytes_round_trip(last, width);
        lemma_sample_local(bytes, k, last, 0, width);
        let front = unpacked(init, width);
        assert forall|i: int| 0 <= i < n - 1 implies all[i] == front[i] by {
            assert(0 <= i * width && i * width + width <= k) by (nonlinear_arith)
                requires
                    0 <= i < n - 1,
                    k == (n - 1) * width,
                    width > 0,
            ;
            lemma_sample_local(bytes, i * width, init, i * width, width);
        }
        assert(all.drop_last() =~= front);
        assert(all.last() == sample_at_offset(last, 0, width));
        assert(init + last =~= bytes);
        assert forall|i: int| 0 <= i < all.len() implies fits_width(#[trigger] all[i], width) by {
            if i < n - 1 {
                assert(all[i] == front[i]);
            }
        }
    }
}

/// Packing takes two or three bytes for each sample, lowest byte first, and
/// they spell the sample modulo that many bits.
pub proof fn law_packed_bytes_spell_samples(samples: Seq<i32>, i: int)
    requires
        0 <= i < samples.len(),
    ensures
        packed(samples, 2).len() == 2 * samples.len(),
        packed(samples, 3).len() == 3 * samples.len(),
        ({
            let p = packed(samples, 2);
            (p[2 * i] + 0x100 * p[2 * i + 1] - samples[i]) % 0x1_0000 == 0
        }),
        ({
            let p = packed(samples, 3);
            (p[3 * i] + 0x100 * p[3 * i + 1] + 0x1_0000 * p[3 * i + 2] - samples[i]) % 0x100_0000
                == 0
        }),
    decreases samples.len(),
{
    lemma_packed_len(samples, 2);
    lemma_packed_len(samples, 3);
    let init = samples.drop_last();
    lemma_packed_len(init, 2);
    lemma_packed_len(init, 3);
    let p2 = packed(samples, 2);
    let p3 = packed(samples, 3);
    if i < init.len() {
        law_packed_bytes_spell_samples(init, i);
        let q2 = packed(init, 2);
        let q3 = packed(init, 3);
        assert(p2[2 * i] == q2[2 * i] && p2[2 * i + 1] == q2[2 * i + 1]);
        assert(p3[3 * i] == q3[3 * i] && p3[3 * i + 1] == q3[3 * i + 1] && p3[3 * i + 2] == q3[3 * i
            + 2]);
        assert(init[i] == samples[i]);
    } else {
        let b2 = sample_bytes(samples[i], 2);
        let b3 = sample_bytes(samples[i], 3);
        assert(p2[2 * i] == b2[0] && p2[2 * i + 1] == b2[1]);
        assert(p3[3 * i] == b3[0] && p3[3 * i + 1] == b3[1] && p3[3 * i + 2] == b3[2]);
        lemma_spelled(samples[i]);
    }
}

proof fn lemma_spelled(s: i32)
    ensures
        ({
            let b = sample_bytes(s, 2);
            (b[0] + 0x100 * b[1] - s) % 0x1_0000 == 0
        }),
        ({
            let b = sample_bytes(s, 3);
            (b[0] + 0x100 * b[1] + 0x1_0000 * b[2] - s) % 0x100_0000 == 0
        }),
{
    let m = s as int % 0x1_0000;
    let k = s as int % 0x100_0000;
    assert(m == m % 0x100 + 0x100 * (m / 0x100));
    assert(k == k % 0x100 + 0x100 * (k / 0x100 % 0x100) + 0x1_0000 * (k / 0x1_0000));
    assert((m - s) % 0x1_0000 == 0);
    assert((k - s) % 0x100_0000 == 0);
}

/// Unpacking reads one signed number of 16 or 24 bits from each whole group
/// of bytes, lowest byte first, and leaves out a last group that is too short.
pub proof fn law_unpacked_samples_are_spelled(bytes: Seq<u8>, i: int)
    ensures
        unpacked(bytes, 2).len() == bytes.len() / 2,
        unpacked(bytes, 3).len() == bytes.len() / 3,
        0 <= i < bytes.len() / 2 ==> ({
            let s = unpacked(bytes, 2)[i];
            &&& -0x8000 <= s < 0x8000
            &&& (bytes[2 * i] + 0x100 * bytes[2 * i + 1] - s) % 0x1_0000 == 0
        }),
        0 <= i < bytes.len() / 3 ==> ({
            let s = unpacked(bytes, 3)[i];
            &&& -0x80_0000 <= s < 0x80_0000
            &&& (bytes[3 * i] + 0x100 * bytes[3 * i + 1] + 0x1_0000 * bytes[3 * i + 2] - s)
                % 0x100_0000 == 0
        }),
{
    if 0 <= i < bytes.len() / 2 {
        let s = unpacked(bytes, 2)[i];
        assert(s == sample_at_offset(bytes, i * 2, 2));
        let m = bytes[2 * i] + 0x100 * bytes[2 * i + 1];
        assert(m - s == 0 || m - s == 0x1_0000);
    }
    if 0 <= i < bytes.len() / 3 {
        let s = unpacked(bytes, 3)[i];
        assert(s == sample_at_offset(bytes, i * 3, 3));
        let m = bytes[3 * i] + 0x100 * bytes[3 * i + 1] + 0x1_0000 * bytes[3 * i + 2];
        assert(m - s == 0 || m - s == 0x100_0000);
    }
}

/// Samples of 17 to 23 bits are moved up to the top of their three bytes;
/// those of 24 bits, and those of two bytes, stay where they are.
pub proof fn law_samples_are_aligned_to_the_top(samples: Seq<i32>, bits_per_sample: u16, i: int)
    requires
        9 <= bits_per_sample <= 24,
        0 <= i < samples.len(),
    ensures
        aligned(samples, bits_per_sample).len() == samples.len(),
        bits_per_sample <= 16 ==> aligned(samples, bits_per_sample)[i] == samples[i],
        bits_per_sample > 16 ==> (aligned(samples, bits_per_sample)[i] - samples[i] * pow2(
            (24 - bits_per_sample) as nat,
        )) % 0x1_0000_0000 == 0,
{
    lemma2_to64();
    let a = alignment(bits_per_sample);
    let x = samples[i] * a;
    let y = samples[i].wrapping_mul(a);
    assert(aligned(samples, bits_per_sample)[i] == y);
    if bits_per_sample <= 16 {
        assert(x == samples[i]);
    } else {
        assert(a == pow2((24 - bits_per_sample) as nat));
        assert((y - x) % 0x1_0000_0000 == 0);
    }
}

} // verus!
