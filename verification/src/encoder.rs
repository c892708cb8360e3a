//! Encoder: interleaved samples in, a complete TTA1 file out.

use crate::bitwriter::BitWriter;
use crate::bytes::push_le32;
use crate::channel::{channel_views, init_channels, prime_or_zero, ChannelState};
use crate::crc32::crc32;
use crate::decorr::forward;
use crate::error::{Error, Result};
use crate::frame::{encode_block, encode_instant, encode_instants};
use crate::frame::{encoded_instant, encoded_instants, initial_channels, instant};
use crate::header::{byte_width, push_header, regular_samples};
use crate::header::{StreamHeader, MAX_NCH, MAX_SAMPLE_RATE};
use crate::layout::{entries, file_of, joined, seek_table_bytes};
use crate::lms::zero_taps;
use crate::password::{derive_qm_priming, priming_spec};
use vstd::prelude::*;
use vstd::slice::slice_subrange;

verus! {

/// Samples per channel in frame `i`.
pub open spec fn frame_samples(h: StreamHeader, i: int) -> int {
    if i + 1 == h.geometry().0 {
        h.geometry().1 as int
    } else {
        regular_samples(h.sample_rate) as int
    }
}

/// Where frame `i` starts in the interleaved samples.
pub open spec fn frame_entry(h: StreamHeader, i: int) -> int {
    i * regular_samples(h.sample_rate) * h.channels
}

/// The interleaved samples of frame `i`.
pub open spec fn frame_pcm(samples: Seq<i32>, h: StreamHeader, i: int) -> Seq<i32> {
    samples.subrange(
        frame_entry(h, i),
        frame_entry(h, i) + frame_samples(h, i) * h.channels,
    )
}

/// The block of frame `i`.
#[verifier::opaque]
pub open spec fn file_block(samples: Seq<i32>, h: StreamHeader, prime: Seq<i32>, i: int) -> Seq<
    u8,
> {
    encode_block(
        frame_pcm(samples, h, i),
        h.channels as nat,
        byte_width(h.bits_per_sample),
        prime,
    )
}

/// The blocks of all frames.
pub open spec fn file_block_list(samples: Seq<i32>, h: StreamHeader, prime: Seq<i32>) -> Seq<
    Seq<u8>,
> {
    Seq::new(h.geometry().0 as nat, |i: int| file_block(samples, h, prime, i))
}

/// A whole file.
pub open spec fn file_bytes(samples: Seq<i32>, h: StreamHeader, prime: Seq<i32>) -> Seq<u8> {
    file_of(h, file_block_list(samples, h, prime))
}

/// The header of the file that encodes `len` interleaved samples. The sample
/// count per channel is kept in 32 bits.
pub open spec fn file_header(
    format: u16,
    len: int,
    channels: u16,
    bits_per_sample: u16,
    sample_rate: u32,
) -> StreamHeader {
    StreamHeader {
        format,
        channels,
        bits_per_sample,
        sample_rate,
        total_samples: ((len / channels as int) % 0x1_0000_0000) as u32,
    }
}

/// Why the encoder refuses its arguments, if it does.
pub open spec fn encode_error(
    len: int,
    channels: u16,
    bits_per_sample: u16,
    sample_rate: u32,
) -> Option<Error> {
    if !(1 <= channels <= MAX_NCH) {
        Some(Error::UnsupportedChannelCount(channels))
    } else if !(16 <= bits_per_sample <= 24) {
        Some(Error::UnsupportedBitDepth(bits_per_sample))
    } else if !(1 <= sample_rate <= MAX_SAMPLE_RATE) {
        Some(Error::UnsupportedSampleRate(sample_rate))
    } else if len % channels as int != 0 {
        Some(Error::InvalidSampleBuffer)
    } else {
        None
    }
}

/// Encode interleaved samples (`c0_s0, c1_s0, ..., c0_s1, c1_s1, ...`) into a
/// complete file of the plain format.
pub fn encode(samples: &[i32], channels: u16, bits_per_sample: u16, sample_rate: u32) -> (r: Result<
    Vec<u8>,
>)
    ensures
        match r {
            Ok(file) => {
                &&& encode_error(
                    samples@.len() as int,
                    channels,
                    bits_per_sample,
                    sample_rate,
                ) is None
                &&& file@ == file_bytes(
                    samples@,
                    file_header(
                        1,
                        samples@.len() as int,
                        channels,
                        bits_per_sample,
                        sample_rate,
                    ),
                    zero_taps(),
                )
            },
            Err(e) => encode_error(
                samples@.len() as int,
                channels,
                bits_per_sample,
                sample_rate,
            ) == Some(e),
        },
{
    encode_inner(samples, channels, bits_per_sample, sample_rate, 1, None)
}

/// Encode interleaved samples into a complete file of the password-primed
/// format.
pub fn encode_with_password(
    samples: &[i32],
    channels: u16,
    bits_per_sample: u16,
    sample_rate: u32,
    password: &[u8],
) -> (r: Result<Vec<u8>>)
    ensures
        match r {
            Ok(file) => {
                &&& encode_error(
                    samples@.len() as int,
                    channels,
                    bits_per_sample,
                    sample_rate,
                ) is None
                &&& file@ == file_bytes(
                    samples@,
                    file_header(
                        2,
                        samples@.len() as int,
                        channels,
                        bits_per_sample,
                        sample_rate,
                    ),
                    priming_spec(password@),
                )
            },
            Err(e) => encode_error(
                samples@.len() as int,
                channels,
                bits_per_sample,
                sample_rate,
            ) == Some(e),
        },
{
    let priming = derive_qm_priming(password);
    encode_inner(samples, channels, bits_per_sample, sample_rate, 2, Some(priming))
}

fn encode_inner(
    samples: &[i32],
    channels: u16,
    bits_per_sample: u16,
    sample_rate: u32,
    format: u16,
    qm_priming: Option<[i32; 8]>,
) -> (r: Result<Vec<u8>>)
    ensures
        match r {
            Ok(file) => {
                &&& encode_error(
                    samples@.len() as int,
                    channels,
                    bits_per_sample,
                    sample_rate,
                ) is None
                &&& file@ == file_bytes(
                    samples@,
                    file_header(
                        format,
                        samples@.len() as int,
                        channels,
                        bits_per_sample,
                        sample_rate,
                    ),
                    prime_or_zero(qm_priming),
                )
            },
            Err(e) => encode_error(
                samples@.len() as int,
                channels,
                bits_per_sample,
                sample_rate,
            ) == Some(e),
        },
{
    if channels == 0 || channels > MAX_NCH {
        return Err(Error::UnsupportedChannelCount(channels));
    }
    if bits_per_sample < 16 || bits_per_sample > 24 {
        return Err(Error::UnsupportedBitDepth(bits_per_sample));
    }
    if sample_rate == 0 || sample_rate > MAX_SAMPLE_RATE {
        return Err(Error::UnsupportedSampleRate(sample_rate));
    }
    let nch: usize = channels as usize;
    if samples.len() % nch != 0 {
        return Err(Error::InvalidSampleBuffer);
    }
    let per_channel: u64 = (samples.len() / nch) as u64;
    let header = StreamHeader {
        format,
        channels,
        bits_per_sample,
        sample_rate,
        total_samples: (per_channel % 0x1_0000_0000) as u32,
    };
    let ghost prime = prime_or_zero(qm_priming);
    let bytes_per_sample: usize = header.bytes_per_sample();
    let regular: u32 = header.regular_frame_samples();
    let (frame_count, last_samples) = header.frame_geometry();
    let ghost list = file_block_list(samples@, header, prime);
    let mut table: Vec<u8> = Vec::new();
    let mut blocks: Vec<u8> = Vec::new();
    let mut cursor: usize = 0;
    let mut i: u32 = 0;
    proof {
        let total = header.total_samples as int;
        let len = samples@.len() as int;
        assert(total * nch <= len) by (nonlinear_arith)
            requires
                total <= len / nch as int,
                nch >= 1,
        ;
        assert(0 * regular * channels == 0) by (nonlinear_arith);
    }
    while i < frame_count
        invariant
            1 <= channels <= MAX_NCH,
            16 <= bits_per_sample <= 24,
            header.channels == channels,
            header.bits_per_sample == bits_per_sample,
            bytes_per_sample == byte_width(bits_per_sample),
            nch == channels,
            regular == regular_samples(header.sample_rate),
            (frame_count, last_samples) == header.geometry(),
            header.total_samples * nch <= samples.len(),
            prime == prime_or_zero(qm_priming),
            i <= frame_count,
            i < frame_count ==> cursor == frame_entry(header, i as int),
            list == file_block_list(samples@, header, prime),
            table@ == entries(list, i as int),
            blocks@ == joined(list, i as int),
        decreases frame_count - i,
    {
        let n_samples: u32 = if i + 1 == frame_count {
            last_samples
        } else {
            regular
        };
        proof {
            reveal(file_block);
            lemma_frame_fits(header, i as int);
        }
        let entry_count: usize = n_samples as usize * nch;
        let pcm = slice_subrange(samples, cursor, cursor + entry_count);
        cursor = cursor + entry_count;
        let mut block: Vec<u8> = encode_one_frame(pcm, nch, bytes_per_sample, qm_priming);
        push_le32(&mut table, (block.len() as u64 % 0x1_0000_0000) as u32);
        blocks.append(&mut block);
        i = i + 1;
    }
    let mut file: Vec<u8> = Vec::new();
    push_header(&mut file, &header);
    let seek_crc: u32 = crc32(table.as_slice());
    push_le32(&mut table, seek_crc);
    assert(table@ == seek_table_bytes(list));
    file.append(&mut table);
    file.append(&mut blocks);
    assert(file@ =~= file_bytes(samples@, header, prime));
    Ok(file)
}

/// Every frame lies within the samples.
pub proof fn lemma_frame_fits(h: StreamHeader, i: int)
    requires
        0 <= i < h.geometry().0,
    ensures
        0 <= frame_entry(h, i),
        0 < frame_samples(h, i) <= regular_samples(h.sample_rate),
        0 <= frame_samples(h, i) * h.channels,
        frame_entry(h, i) + frame_samples(h, i) * h.channels <= h.total_samples * h.channels,
        i + 1 < h.geometry().0 ==> frame_entry(h, i) + frame_samples(h, i) * h.channels
            == frame_entry(h, i + 1),
        i + 1 == h.geometry().0 ==> frame_entry(h, i) + frame_samples(h, i) * h.channels
            == h.total_samples * h.channels,
{
    let total = h.total_samples as int;
    let regular = regular_samples(h.sample_rate) as int;
    let nch = h.channels as int;
    let n = h.geometry().0 as int;
    let len = frame_samples(h, i);
    assert(regular > 0 && total > 0);
    lemma_geometry_sum(h.total_samples, regular_samples(h.sample_rate));
    assert((n - 1) * regular + h.geometry().1 == total);
    assert(i * regular + len <= total && 0 <= i * regular) by (nonlinear_arith)
        requires
            0 <= i < n,
            (n - 1) * regular + h.geometry().1 == total,
            i + 1 == n ==> len == h.geometry().1,
            i + 1 < n ==> len == regular,
            regular > 0,
            0 < h.geometry().1,
    ;
    assert(frame_entry(h, i) == (i * regular) * nch);
    assert((i * regular) * nch + len * nch <= total * nch && 0 <= (i * regular) * nch && 0 <= len
        * nch) by (nonlinear_arith)
        requires
            i * regular + len <= total,
            0 <= i * regular,
            0 <= len,
            0 <= nch,
    ;
    if i + 1 < n {
        assert(frame_entry(h, i + 1) == ((i + 1) * regular) * nch);
        assert((i * regular) * nch + regular * nch == ((i + 1) * regular) * nch)
            by (nonlinear_arith);
    } else {
        assert((i * regular) * nch + len * nch == total * nch) by (nonlinear_arith)
            requires
                i * regular + len == total,
        ;
    }
}

/// The frames together hold exactly the stream: all but the last are
/// regular, and the last is not longer.
pub proof fn lemma_geometry_sum(total: u32, regular: u32)
    requires
        regular > 0,
        total > 0,
    ensures
        crate::header::geometry(total, regular).0 > 0,
        0 < crate::header::geometry(total, regular).1 <= regular,
        (crate::header::geometry(total, regular).0 - 1) * regular + crate::header::geometry(
            total,
            regular,
        ).1 == total,
{
    crate::header::lemma_frames_exist(total, regular);
    let q = total / regular;
    let m = total % regular;
    vstd::arithmetic::div_mod::lemma_fundamental_div_mod(total as int, regular as int);
    if m == 0 {
        assert((q - 1) * regular + regular == regular * q) by (nonlinear_arith);
    } else {
        crate::header::lemma_frame_count_fits(total, regular);
        assert((q + 1 - 1) * regular == regular * q) by (nonlinear_arith);
    }
}

/// Encode one frame: its body, padded to a byte boundary, and the CRC.
pub fn encode_one_frame(
    pcm: &[i32],
    nch: usize,
    bytes_per_sample: usize,
    qm_priming: Option<[i32; 8]>,
) -> (block: Vec<u8>)
    requires
        nch >= 1,
        1 <= bytes_per_sample <= 3,
    ensures
        block@ == encode_block(
            pcm@,
            nch as nat,
            bytes_per_sample as int,
            prime_or_zero(qm_priming),
        ),
{
    let instants: usize = pcm.len() / nch;
    let mut writer = BitWriter::new();
    let mut chans: Vec<ChannelState> = init_channels(nch, bytes_per_sample, qm_priming);
    let ghost start = channel_views(chans@);
    let ghost len = pcm@.len();
    assert(start == initial_channels(
        nch as nat,
        bytes_per_sample as int,
        prime_or_zero(qm_priming),
    ));
    let mut scratch: Vec<i32> = Vec::new();
    let mut s: usize = 0;
    let mut base: usize = 0;
    assert(writer@ =~= encode_instants(start, pcm@, 0));
    assert(instants * nch <= len) by (nonlinear_arith)
        requires
            instants == len as int / nch as int,
            nch >= 1,
    ;
    assert(0 == 0 * nch) by (nonlinear_arith);
    while s < instants
        invariant
            nch >= 1,
            s <= instants,
            base == s * nch,
            instants * nch <= pcm.len(),
            writer.wf(),
            start.len() == nch,
            chans@.len() == nch,
            forall|i: int| 0 <= i < nch ==> (#[trigger] chans@[i])@.wf(),
            channel_views(chans@) == encoded_instants(start, pcm@, s as int),
            writer@ == encode_instants(start, pcm@, s as int),
        decreases instants - s,
    {
        assert(base + nch == (s + 1) * nch && (s + 1) * nch <= instants * nch) by (nonlinear_arith)
            requires
                base == s * nch,
                s + 1 <= instants,
                nch >= 0,
        ;
        scratch.clear();
        scratch.extend_from_slice(slice_subrange(pcm, base, base + nch));
        assert(scratch@ =~= instant(pcm@, nch as int, s as int));
        forward(scratch.as_mut_slice());
        encode_tuple(&mut writer, &mut chans, &scratch);
        s = s + 1;
        base = base + nch;
    }
    let mut block: Vec<u8> = writer.finish_byte_aligned();
    let crc: u32 = crc32(block.as_slice());
    push_le32(&mut block, crc);
    block
}

/// Encode the decorrelated values of one instant, channel by channel.
fn encode_tuple(writer: &mut BitWriter, chans: &mut Vec<ChannelState>, values: &Vec<i32>)
    requires
        old(writer).wf(),
        old(chans)@.len() == values@.len(),
        forall|i: int| 0 <= i < old(chans)@.len() ==> (#[trigger] old(chans)@[i])@.wf(),
    ensures
        final(writer).wf(),
        final(chans)@.len() == old(chans)@.len(),
        forall|i: int| 0 <= i < final(chans)@.len() ==> (#[trigger] final(chans)@[i])@.wf(),
        channel_views(final(chans)@) == encoded_instant(
            channel_views(old(chans)@),
            values@,
            values@.len() as int,
        ),
        final(writer)@ == old(writer)@ + encode_instant(
            channel_views(old(chans)@),
            values@,
            values@.len() as int,
        ),
{
    let ghost start = channel_views(chans@);
    let ghost before = writer@;
    let mut ch: usize = 0;
    assert(before + Seq::<bool>::empty() =~= before);
    while ch < values.len()
        invariant
            ch <= values@.len(),
            writer.wf(),
            start.len() == values@.len(),
            chans@.len() == values@.len(),
            forall|i: int| 0 <= i < chans@.len() ==> (#[trigger] chans@[i])@.wf(),
            channel_views(chans@) == encoded_instant(start, values@, ch as int),
            writer@ == before + encode_instant(start, values@, ch as int),
        decreases values@.len() - ch,
    {
        let ghost mid = channel_views(chans@);
        let ghost w0 = writer@;
        chans[ch].encode(writer, values[ch]);
        proof {
            let c = mid[ch as int].encoded(values@[ch as int]);
            assert(channel_views(chans@) =~= mid.update(ch as int, c));
            assert(writer@ =~= before + encode_instant(start, values@, ch + 1));
        }
        ch = ch + 1;
    }
}

} // verus!
