//! Channel decorrelation.
//!
//! The encoder replaces each channel but the last by its difference to the
//! next, and the last by itself minus half the last difference. The decoder
//! undoes this from the last channel down. Halving truncates toward zero.
//! A single channel passes through unchanged.

use vstd::prelude::*;

verus! {

/// Half of `d`, truncated toward zero.
pub open spec fn half(d: i32) -> i32 {
    if d >= 0 {
        (d as int / 2) as i32
    } else {
        (-((-d) / 2)) as i32
    }
}

/// The decorrelated channels for the samples `pcm` of one instant.
pub open spec fn forward_spec(pcm: Seq<i32>) -> Seq<i32> {
    let n = pcm.len();
    if n < 2 {
        pcm
    } else {
        Seq::new(
            n,
            |i: int|
                if i < n - 1 {
                    pcm[i + 1].wrapping_sub(pcm[i])
                } else {
                    pcm[n - 1].wrapping_sub(half(pcm[n - 1].wrapping_sub(pcm[n - 2])))
                },
        )
    }
}

/// Sample `i` recovered from the decorrelated channels `dec`.
pub open spec fn inverse_at(dec: Seq<i32>, i: int) -> i32
    decreases dec.len() - i,
{
    if i >= dec.len() - 1 {
        dec[dec.len() - 1].wrapping_add(half(dec[dec.len() - 2]))
    } else {
        inverse_at(dec, i + 1).wrapping_sub(dec[i])
    }
}

/// The samples recovered from the decorrelated channels `dec`.
pub open spec fn inverse_spec(dec: Seq<i32>) -> Seq<i32> {
    if dec.len() < 2 {
        dec
    } else {
        Seq::new(dec.len(), |i: int| inverse_at(dec, i))
    }
}

fn halve(d: i32) -> (r: i32)
    ensures
        r == half(d),
{
    if d >= 0 {
        ((d as u32) / 2) as i32
    } else {
        let magnitude: u32 = (-(d as i64)) as u32;
        -((magnitude / 2) as i32)
    }
}

/// Recover the samples in place.
pub fn inverse(buffer: &mut [i32])
    ensures
        final(buffer)@ == inverse_spec(old(buffer)@),
        forall|i: int|
            0 <= i < old(buffer)@.len() - 1 ==> (#[trigger] final(buffer)@[i + 1]).wrapping_sub(
                final(buffer)@[i],
            ) == old(buffer)@[i],
{
    proof {
        if buffer@.len() >= 2 {
            law_inverse_sums_differences(buffer@);
        }
    }
    let n: usize = buffer.len();
    if n < 2 {
        return ;
    }
    let ghost dec = buffer@;
    buffer[n - 1] = buffer[n - 1].wrapping_add(halve(buffer[n - 2]));
    let mut i: usize = n - 1;
    while i > 0
        invariant
            i <= n - 1,
            n >= 2,
            buffer@.len() == n,
            dec.len() == n,
            forall|j: int| 0 <= j < i ==> buffer@[j] == dec[j],
            forall|j: int| i <= j < n ==> buffer@[j] == inverse_at(dec, j),
        decreases i,
    {
        i = i - 1;
        assert(buffer@[i + 1] == inverse_at(dec, i + 1));
        buffer[i] = buffer[i + 1].wrapping_sub(buffer[i]);
    }
    assert(buffer@ =~= inverse_spec(dec));
}

/// Decorrelate the samples in place.
pub fn forward(pcm: &mut [i32])
    ensures
        final(pcm)@ == forward_spec(old(pcm)@),
        forall|i: int|
            0 <= i < old(pcm)@.len() - 1 ==> #[trigger] final(pcm)@[i] == old(pcm)@[i
                + 1].wrapping_sub(old(pcm)@[i]),
{
    proof {
        if pcm@.len() >= 2 {
            law_forward_takes_differences(pcm@);
        }
    }
    let n: usize = pcm.len();
    if n < 2 {
        return ;
    }
    let ghost orig = pcm@;
    let mut last_delta: i32 = 0;
    let mut i: usize = 0;
    while i < n - 1
        invariant
            i <= n - 1,
            n >= 2,
            pcm@.len() == n,
            orig.len() == n,
            forall|j: int| 0 <= j < i ==> pcm@[j] == orig[j + 1].wrapping_sub(orig[j]),
            forall|j: int| i <= j < n ==> pcm@[j] == orig[j],
            i > 0 ==> last_delta == orig[i as int].wrapping_sub(orig[i - 1]),
        decreases n - i,
    {
        let delta: i32 = pcm[i + 1].wrapping_sub(pcm[i]);
        pcm[i] = delta;
        last_delta = delta;
        i = i + 1;
    }
    pcm[n - 1] = pcm[n - 1].wrapping_sub(halve(last_delta));
    assert(pcm@ =~= forward_spec(orig));
}

/// Recovering undoes decorrelating, for every channel count and all samples.
pub proof fn law_inverse_undoes_forward(pcm: Seq<i32>)
    ensures
        inverse_spec(forward_spec(pcm)) == pcm,
{
    if pcm.len() >= 2 {
        let dec = forward_spec(pcm);
        assert forall|i: int| 0 <= i < pcm.len() implies inverse_at(dec, i) == pcm[i] by {
            lemma_inverse_at_forward(pcm, i);
        }
        assert(inverse_spec(dec) =~= pcm);
    }
}

/// Decorrelating undoes recovering: every tuple of decorrelated channels
/// stands for exactly one tuple of samples.
pub proof fn law_forward_undoes_inverse(dec: Seq<i32>)
    ensures
        forward_spec(inverse_spec(dec)) == dec,
{
    let n = dec.len();
    if n >= 2 {
        let pcm = inverse_spec(dec);
        assert forall|i: int| 0 <= i < n - 1 implies #[trigger] pcm[i + 1].wrapping_sub(pcm[i])
            == dec[i] by {
            assert(pcm[i] == inverse_at(dec, i));
            assert(pcm[i + 1] == inverse_at(dec, i + 1));
        }
        assert(pcm[n - 2 + 1].wrapping_sub(pcm[n - 2]) == dec[n - 2]);
        assert(forward_spec(pcm) =~= dec);
    }
}

/// A single channel is left alone in both directions.
pub proof fn law_mono_is_identity(pcm: Seq<i32>)
    requires
        pcm.len() == 1,
    ensures
        forward_spec(pcm) == pcm,
        inverse_spec(pcm) == pcm,
{
}

proof fn lemma_inverse_at_forward(pcm: Seq<i32>, i: int)
    requires
        pcm.len() >= 2,
        0 <= i < pcm.len(),
    ensures
        inverse_at(forward_spec(pcm), i) == pcm[i],
    decreases pcm.len() - i,
{
    if i < pcm.len() - 1 {
        lemma_inverse_at_forward(pcm, i + 1);
    }
}

/// What decorrelating does to the samples: each entry but the last becomes
/// the difference of the next sample and its own, and the last loses half of
/// the entry before it, truncated toward zero. Differences wrap.
pub proof fn law_forward_takes_differences(pcm: Seq<i32>)
    requires
        pcm.len() >= 2,
    ensures
        forward_spec(pcm).len() == pcm.len(),
        forall|i: int|
            0 <= i < pcm.len() - 1 ==> #[trigger] forward_spec(pcm)[i] == pcm[i + 1].wrapping_sub(
                pcm[i],
            ),
        ({
            let n = pcm.len();
            let d = forward_spec(pcm)[n - 2];
            let h = pcm[n - 1].wrapping_sub(forward_spec(pcm)[n - 1]);
            if d >= 0 {
                2 * h <= d < 2 * h + 2
            } else {
                2 * h - 2 < d <= 2 * h
            }
        }),
{
    let n = pcm.len();
    let dec = forward_spec(pcm);
    assert(dec[n - 2] == pcm[n - 2 + 1].wrapping_sub(pcm[n - 2]));
    let d = dec[n - 2];
    assert(-0x4000_0000 <= half(d) <= 0x3FFF_FFFF);
    assert(pcm[n - 1].wrapping_sub(pcm[n - 1].wrapping_sub(half(d))) == half(d));
}

/// What recovering does to the decorrelated channels: neighbouring samples
/// differ by the entry of the lower one, and the last sample stands above the
/// last entry by half of the entry before it, truncated toward zero.
/// Differences wrap.
pub proof fn law_inverse_sums_differences(dec: Seq<i32>)
    requires
        dec.len() >= 2,
    ensures
        inverse_spec(dec).len() == dec.len(),
        forall|i: int|
            0 <= i < dec.len() - 1 ==> (#[trigger] inverse_spec(dec)[i + 1]).wrapping_sub(
                inverse_spec(dec)[i],
            ) == dec[i],
        ({
            let n = dec.len();
            let d = dec[n - 2];
            let h = inverse_spec(dec)[n - 1].wrapping_sub(dec[n - 1]);
            if d >= 0 {
                2 * h <= d < 2 * h + 2
            } else {
                2 * h - 2 < d <= 2 * h
            }
        }),
{
    let n = dec.len();
    let pcm = inverse_spec(dec);
    assert forall|i: int| 0 <= i < n - 1 implies (#[trigger] inverse_spec(dec)[i + 1]).wrapping_sub(
        inverse_spec(dec)[i],
    ) == dec[i] by {
        assert(pcm[i] == inverse_at(dec, i));
        assert(pcm[i + 1] == inverse_at(dec, i + 1));
    }
    let d = dec[n - 2];
    assert(-0x4000_0000 <= half(d) <= 0x3FFF_FFFF);
    assert(pcm[n - 1] == dec[n - 1].wrapping_add(half(d)));
    assert(dec[n - 1].wrapping_add(half(d)).wrapping_sub(dec[n - 1]) == half(d));
}

/// Instants without a pair of channels are left alone in both directions,
/// and no instant changes its number of channels.
pub proof fn law_decorrelation_keeps_channels(pcm: Seq<i32>)
    ensures
        forward_spec(pcm).len() == pcm.len(),
        inverse_spec(pcm).len() == pcm.len(),
        pcm.len() < 2 ==> forward_spec(pcm) == pcm && inverse_spec(pcm) == pcm,
{
}

} // verus!
