//! What the trace tape says: the fields of each line, and which lines follow
//! each other.

use crate::channel::ChannelModel;
use crate::crc32::crc32_spec;
use crate::bits::stream_bits;
use crate::decoder::StreamModel;
use crate::decorr::inverse_spec;
use crate::frame::{decode_instant, decode_instants, initial_channels};
use crate::header::{byte_width, FrameDescriptor, StreamHeader};
use crate::rice::decode_step;
use crate::stage_b::stage_b_prediction;
use crate::text::{hex, signed_decimal};
use crate::trace::{decorr_post_line, decorr_pre_line, file_header_line};
use crate::trace::{frame_begin_line, frame_end_line, header_crc_line};
use crate::trace::{lms_init_line, lms_post_line, lms_pre_line};
use crate::trace::{pcm_out_line, rice_decode_line, rice_k_init_line};
use crate::trace::{rice_k_update_line, seek_entry_line, seek_table_begin_line};
use crate::trace::{seek_table_end_line, stage_a_predict_line, stage_b_predict_line};
use crate::trace::{channel_tape, entries_tape, file_tape, frame_tape, frames_tape};
use crate::trace::{inits_tape, instant_tape, instants_tape, list_text, low32, sample_tape};
use crate::trace::stream_tape;
use vstd::prelude::*;

verus! {

/// The fields of the line `FILE_HEADER`, in order.
pub proof fn law_file_header_line(
    magic_ok: bool,
    format: u32,
    nch: u32,
    bps: u32,
    sample_rate: u32,
    samples_total: u32,
)
    ensures
        file_header_line(magic_ok, format, nch, bps, sample_rate, samples_total) == (
            "ev="@ + "FILE_HEADER"@ + "\t"@ + "magic_ok"@ + "="@
            + (if magic_ok { "1"@ } else { "0"@ }) + "\t"@ + "format"@ + "="@
            + signed_decimal(format as int) + "\t"@ + "nch"@ + "="@ + signed_decimal(nch as int)
            + "\t"@ + "bps"@ + "="@ + signed_decimal(bps as int) + "\t"@ + "sample_rate"@ + "="@
            + signed_decimal(sample_rate as int) + "\t"@ + "samples_total"@ + "="@
            + signed_decimal(samples_total as int) + "\n"@
        ),
{
    reveal(file_header_line);
}

/// The fields of the line `HEADER_CRC`, in order.
pub proof fn law_header_crc_line(crc_ok: bool, computed_crc: u32)
    ensures
        header_crc_line(crc_ok, computed_crc) == (
            "ev="@ + "HEADER_CRC"@ + "\t"@ + "crc_ok"@ + "="@
            + (if crc_ok { "1"@ } else { "0"@ }) + "\t"@ + "computed_crc"@ + "="@ + "0x"@
            + hex(computed_crc as nat, 8) + "\n"@
        ),
{
    reveal(header_crc_line);
}

/// The fields of the line `SEEK_TABLE_BEGIN`, in order.
pub proof fn law_seek_table_begin_line(frame_count: u32)
    ensures
        seek_table_begin_line(frame_count) == (
            "ev="@ + "SEEK_TABLE_BEGIN"@ + "\t"@ + "frame_count"@ + "="@
            + signed_decimal(frame_count as int) + "\n"@
        ),
{
    reveal(seek_table_begin_line);
}

/// The fields of the line `SEEK_ENTRY`, in order.
pub proof fn law_seek_entry_line(frame_idx: u32, byte_length: u32, cumulative_offset: u64)
    ensures
        seek_entry_line(frame_idx, byte_length, cumulative_offset) == (
            "ev="@ + "SEEK_ENTRY"@ + "\t"@ + "frame_idx"@ + "="@
            + signed_decimal(frame_idx as int) + "\t"@ + "byte_length"@ + "="@
            + signed_decimal(byte_length as int) + "\t"@ + "cumulative_offset"@ + "="@
            + signed_decimal(cumulative_offset as int) + "\n"@
        ),
{
    reveal(seek_entry_line);
}

/// The fields of the line `SEEK_TABLE_END`, in order.
pub proof fn law_seek_table_end_line(crc_ok: bool)
    ensures
        seek_table_end_line(crc_ok) == (
            "ev="@ + "SEEK_TABLE_END"@ + "\t"@ + "crc_ok"@ + "="@
            + (if crc_ok { "1"@ } else { "0"@ }) + "\n"@
        ),
{
    reveal(seek_table_end_line);
}

/// The fields of the line `LMS_INIT`, in order.
pub proof fn law_lms_init_line(frame_idx: i32, channel: u32, shift: i32, round: i32)
    ensures
        lms_init_line(frame_idx, channel, shift, round) == (
            "ev="@ + "LMS_INIT"@ + "\t"@ + "frame_idx"@ + "="@
            + signed_decimal(frame_idx as int) + "\t"@ + "channel"@ + "="@
            + signed_decimal(channel as int) + "\t"@ + "shift"@ + "="@
            + signed_decimal(shift as int) + "\t"@ + "round"@ + "="@
            + signed_decimal(round as int) + "\n"@
        ),
{
    reveal(lms_init_line);
}

/// The fields of the line `RICE_K_INIT`, in order.
pub proof fn law_rice_k_init_line(
    frame_idx: i32,
    channel: u32,
    k0_init: u32,
    k1_init: u32,
    sum0_init: u32,
    sum1_init: u32,
)
    ensures
        rice_k_init_line(frame_idx, channel, k0_init, k1_init, sum0_init, sum1_init) == (
            "ev="@ + "RICE_K_INIT"@ + "\t"@ + "frame_idx"@ + "="@
            + signed_decimal(frame_idx as int) + "\t"@ + "channel"@ + "="@
            + signed_decimal(channel as int) + "\t"@ + "k0_init"@ + "="@
            + signed_decimal(k0_init as int) + "\t"@ + "k1_init"@ + "="@
            + signed_decimal(k1_init as int) + "\t"@ + "sum0_init"@ + "="@
            + signed_decimal(sum0_init as int) + "\t"@ + "sum1_init"@ + "="@
            + signed_decimal(sum1_init as int) + "\n"@
        ),
{
    reveal(rice_k_init_line);
}

/// The fields of the line `FRAME_BEGIN`, in order.
pub proof fn law_frame_begin_line(frame_idx: u32, expected_samples: u32)
    ensures
        frame_begin_line(frame_idx, expected_samples) == (
            "ev="@ + "FRAME_BEGIN"@ + "\t"@ + "frame_idx"@ + "="@
            + signed_decimal(frame_idx as int) + "\t"@ + "expected_samples"@ + "="@
            + signed_decimal(expected_samples as int) + "\n"@
        ),
{
    reveal(frame_begin_line);
}

/// The fields of the line `FRAME_END`, in order.
pub proof fn law_frame_end_line(frame_idx: u32, computed_crc: u32, expected_crc: u32, ok: bool)
    ensures
        frame_end_line(frame_idx, computed_crc, expected_crc, ok) == (
            "ev="@ + "FRAME_END"@ + "\t"@ + "frame_idx"@ + "="@
            + signed_decimal(frame_idx as int) + "\t"@ + "computed_crc"@ + "="@ + "0x"@
            + hex(computed_crc as nat, 8) + "\t"@ + "expected_crc"@ + "="@ + "0x"@
            + hex(expected_crc as nat, 8) + "\t"@ + "ok"@ + "="@
            + (if ok { "1"@ } else { "0"@ }) + "\n"@
        ),
{
    reveal(frame_end_line);
}

/// The fields of the line `RICE_DECODE`, in order.
pub proof fn law_rice_decode_line(
    frame_idx: u32,
    step_idx: u32,
    channel: u32,
    raw_unary: u32,
    mode: bool,
    k_used: u32,
    residual_signed: i32,
)
    ensures
        rice_decode_line(frame_idx, step_idx, channel, raw_unary, mode, k_used, residual_signed) == (
            "ev="@ + "RICE_DECODE"@ + "\t"@ + "frame_idx"@ + "="@
            + signed_decimal(frame_idx as int) + "\t"@ + "step_idx"@ + "="@
            + signed_decimal(step_idx as int) + "\t"@ + "channel"@ + "="@
            + signed_decimal(channel as int) + "\t"@ + "raw_unary"@ + "="@
            + signed_decimal(raw_unary as int) + "\t"@ + "mode"@ + "="@
            + (if mode { "1"@ } else { "0"@ }) + "\t"@ + "k_used"@ + "="@
            + signed_decimal(k_used as int) + "\t"@ + "residual_signed"@ + "="@
            + signed_decimal(residual_signed as int) + "\n"@
        ),
{
    reveal(rice_decode_line);
}

/// The fields of the line `RICE_K_UPDATE`, in order.
pub proof fn law_rice_k_update_line(
    frame_idx: u32,
    step_idx: u32,
    channel: u32,
    k0_post: u32,
    k1_post: u32,
    sum0_post: u32,
    sum1_post: u32,
)
    ensures
        rice_k_update_line(frame_idx, step_idx, channel, k0_post, k1_post, sum0_post, sum1_post) == (
            "ev="@ + "RICE_K_UPDATE"@ + "\t"@ + "frame_idx"@ + "="@
            + signed_decimal(frame_idx as int) + "\t"@ + "step_idx"@ + "="@
            + signed_decimal(step_idx as int) + "\t"@ + "channel"@ + "="@
            + signed_decimal(channel as int) + "\t"@ + "k0_post"@ + "="@
            + signed_decimal(k0_post as int) + "\t"@ + "k1_post"@ + "="@
            + signed_decimal(k1_post as int) + "\t"@ + "sum0_post"@ + "="@
            + signed_decimal(sum0_post as int) + "\t"@ + "sum1_post"@ + "="@
            + signed_decimal(sum1_post as int) + "\n"@
        ),
{
    reveal(rice_k_update_line);
}

/// The fields of the line `LMS_PRE`, in order.
pub proof fn law_lms_pre_line(
    frame_idx: u32,
    step_idx: u32,
    channel: u32,
    dl_pre: Seq<i32>,
    dx_pre: Seq<i32>,
    qm_pre: Seq<i32>,
)
    ensures
        lms_pre_line(frame_idx, step_idx, channel, dl_pre, dx_pre, qm_pre) == (
            "ev="@ + "LMS_PRE"@ + "\t"@ + "frame_idx"@ + "="@ + signed_decimal(frame_idx as int)
            + "\t"@ + "step_idx"@ + "="@ + signed_decimal(step_idx as int) + "\t"@ + "channel"@
            + "="@ + signed_decimal(channel as int) + "\t"@ + "dl_pre"@ + "="@
            + list_text(dl_pre) + "\t"@ + "dx_pre"@ + "="@ + list_text(dx_pre) + "\t"@
            + "qm_pre"@ + "="@ + list_text(qm_pre) + "\n"@
        ),
{
    reveal(lms_pre_line);
}

/// The fields of the line `STAGE_A_PREDICT`, in order.
pub proof fn law_stage_a_predict_line(
    frame_idx: u32,
    step_idx: u32,
    channel: u32,
    predicted_a: i32,
    error_a: i32,
    sample_after_a: i32,
)
    ensures
        stage_a_predict_line(frame_idx, step_idx, channel, predicted_a, error_a, sample_after_a) == (
            "ev="@ + "STAGE_A_PREDICT"@ + "\t"@ + "frame_idx"@ + "="@
            + signed_decimal(frame_idx as int) + "\t"@ + "step_idx"@ + "="@
            + signed_decimal(step_idx as int) + "\t"@ + "channel"@ + "="@
            + signed_decimal(channel as int) + "\t"@ + "predicted_a"@ + "="@
            + signed_decimal(predicted_a as int) + "\t"@ + "error_a"@ + "="@
            + signed_decimal(error_a as int) + "\t"@ + "sample_after_a"@ + "="@
            + signed_decimal(sample_after_a as int) + "\n"@
        ),
{
    reveal(stage_a_predict_line);
}

/// The fields of the line `LMS_POST`, in order.
pub proof fn law_lms_post_line(
    frame_idx: u32,
    step_idx: u32,
    channel: u32,
    dl_post: Seq<i32>,
    dx_post: Seq<i32>,
    qm_post: Seq<i32>,
    error_pre: i32,
)
    ensures
        lms_post_line(frame_idx, step_idx, channel, dl_post, dx_post, qm_post, error_pre) == (
            "ev="@ + "LMS_POST"@ + "\t"@ + "frame_idx"@ + "="@
            + signed_decimal(frame_idx as int) + "\t"@ + "step_idx"@ + "="@
            + signed_decimal(step_idx as int) + "\t"@ + "channel"@ + "="@
            + signed_decimal(channel as int) + "\t"@ + "dl_post"@ + "="@ + list_text(dl_post)
            + "\t"@ + "dx_post"@ + "="@ + list_text(dx_post) + "\t"@ + "qm_post"@ + "="@
            + list_text(qm_post) + "\t"@ + "error_pre"@ + "="@
            + signed_decimal(error_pre as int) + "\n"@
        ),
{
    reveal(lms_post_line);
}

/// The fields of the line `STAGE_B_PREDICT`, in order.
pub proof fn law_stage_b_predict_line(
    frame_idx: u32,
    step_idx: u32,
    channel: u32,
    prev_in: i32,
    predicted_b: i32,
    residual_b: i32,
    sample_after_b: i32,
)
    ensures
        stage_b_predict_line(frame_idx, step_idx, channel, prev_in, predicted_b, residual_b, sample_after_b) == (
            "ev="@ + "STAGE_B_PREDICT"@ + "\t"@ + "frame_idx"@ + "="@
            + signed_decimal(frame_idx as int) + "\t"@ + "step_idx"@ + "="@
            + signed_decimal(step_idx as int) + "\t"@ + "channel"@ + "="@
            + signed_decimal(channel as int) + "\t"@ + "prev_in"@ + "="@
            + signed_decimal(prev_in as int) + "\t"@ + "predicted_b"@ + "="@
            + signed_decimal(predicted_b as int) + "\t"@ + "residual_b"@ + "="@
            + signed_decimal(residual_b as int) + "\t"@ + "sample_after_b"@ + "="@
            + signed_decimal(sample_after_b as int) + "\n"@
        ),
{
    reveal(stage_b_predict_line);
}

/// The fields of the line `DECORR_PRE`, in order.
pub proof fn law_decorr_pre_line(frame_idx: u32, sample_idx: u32, raw_per_channel: Seq<i32>)
    ensures
        decorr_pre_line(frame_idx, sample_idx, raw_per_channel) == (
            "ev="@ + "DECORR_PRE"@ + "\t"@ + "frame_idx"@ + "="@
            + signed_decimal(frame_idx as int) + "\t"@ + "sample_idx"@ + "="@
            + signed_decimal(sample_idx as int) + "\t"@ + "nch"@ + "="@
            + signed_decimal(raw_per_channel.len() as int) + "\t"@ + "raw_per_channel"@ + "="@
            + list_text(raw_per_channel) + "\n"@
        ),
{
    reveal(decorr_pre_line);
}

/// The fields of the line `DECORR_POST`, in order.
pub proof fn law_decorr_post_line(
    frame_idx: u32,
    sample_idx: u32,
    decorrelated_per_channel: Seq<i32>,
)
    ensures
        decorr_post_line(frame_idx, sample_idx, decorrelated_per_channel) == (
            "ev="@ + "DECORR_POST"@ + "\t"@ + "frame_idx"@ + "="@
            + signed_decimal(frame_idx as int) + "\t"@ + "sample_idx"@ + "="@
            + signed_decimal(sample_idx as int) + "\t"@ + "nch"@ + "="@
            + signed_decimal(decorrelated_per_channel.len() as int) + "\t"@
            + "decorrelated_per_channel"@ + "="@ + list_text(decorrelated_per_channel) + "\n"@
        ),
{
    reveal(decorr_post_line);
}

/// The fields of the line `PCM_OUT`, in order.
pub proof fn law_pcm_out_line(frame_idx: u32, sample_idx: u32, final_per_channel: Seq<i32>)
    ensures
        pcm_out_line(frame_idx, sample_idx, final_per_channel) == (
            "ev="@ + "PCM_OUT"@ + "\t"@ + "frame_idx"@ + "="@ + signed_decimal(frame_idx as int)
            + "\t"@ + "sample_idx"@ + "="@ + signed_decimal(sample_idx as int) + "\t"@ + "nch"@
            + "="@ + signed_decimal(final_per_channel.len() as int) + "\t"@
            + "final_per_channel"@ + "="@ + list_text(final_per_channel) + "\n"@
        ),
{
    reveal(pcm_out_line);
}

/// Numbers in a list are separated by commas.
pub proof fn law_list_text(values: Seq<i32>, v: i32)
    ensures
        list_text(Seq::empty()) == Seq::<char>::empty(),
        values.len() == 0 ==> list_text(values.push(v)) == signed_decimal(v as int),
        values.len() > 0 ==> list_text(values.push(v)) == list_text(values) + ","@ + signed_decimal(
            v as int,
        ),
{
    assert(values.push(v).drop_last() =~= values);
}

/// A step adds six lines, in the order the values come up: the codeword and
/// the parameters after it, the filter before the step, its prediction, the
/// filter after it, and the second prediction. Nothing is added where the
/// codeword is missing.
pub proof fn law_step_on_tape(
    tape: Seq<char>,
    c: ChannelModel,
    bits: Seq<bool>,
    frame_idx: u32,
    step_idx: u32,
    channel: u32,
)
    ensures
        match (decode_step(bits, c.rice), c.decode(bits)) {
            (Some((t, _)), Some((s, post, _))) => {
                let f = frame_idx;
                let e = t.residual_signed;
                let mid = e.wrapping_add(c.lms.prediction());
                channel_tape(tape, c, bits, f, step_idx, channel) == tape + rice_decode_line(
                    f,
                    step_idx,
                    channel,
                    t.raw_unary,
                    t.mode_high,
                    t.k_used,
                    e,
                ) + rice_k_update_line(
                    f,
                    step_idx,
                    channel,
                    post.rice.k0,
                    post.rice.k1,
                    post.rice.sum0,
                    post.rice.sum1,
                ) + lms_pre_line(f, step_idx, channel, c.lms.dl, c.lms.dx, c.lms.qm)
                    + stage_a_predict_line(f, step_idx, channel, c.lms.prediction(), e, mid)
                    + lms_post_line(
                    f,
                    step_idx,
                    channel,
                    post.lms.dl,
                    post.lms.dx,
                    post.lms.qm,
                    c.lms.error,
                ) + stage_b_predict_line(
                    f,
                    step_idx,
                    channel,
                    c.prev,
                    stage_b_prediction(c.prev),
                    mid,
                    s,
                )
            },
            _ => channel_tape(tape, c, bits, frame_idx, step_idx, channel) == tape,
        },
{
    reveal(channel_tape);
}

/// The steps of an instant follow each other in channel order and are
/// numbered on.
#[verifier::rlimit(60)]
pub proof fn law_instant_on_tape(
    tape: Seq<char>,
    bits: Seq<bool>,
    chans: Seq<ChannelModel>,
    n: int,
    frame_idx: u32,
    first_step: int,
)
    requires
        0 <= n < chans.len(),
        chans.len() <= 6,
        0 <= first_step,
        first_step + n <= u32::MAX,
    ensures
        instant_tape(tape, bits, chans, 0, frame_idx, first_step) == tape,
        ({
            let before = instant_tape(tape, bits, chans, n, frame_idx, first_step);
            let after = instant_tape(tape, bits, chans, n + 1, frame_idx, first_step);
            match decode_instant(bits, chans, n) {
                None => after == before,
                Some((_, _, rest)) => after == channel_tape(
                    before,
                    chans[n],
                    rest,
                    frame_idx,
                    (first_step + n) as u32,
                    n as u32,
                ),
            }
        }),
{
    lemma_later_channels(bits, chans, n);
    assert(low32(first_step + n) == (first_step + n) as u32);
    assert(low32(n) == n as u32);
    assert(n + 1 - 1 == n && first_step + (n + 1) - 1 == first_step + n);
}

proof fn lemma_later_channels(bits: Seq<bool>, chans: Seq<ChannelModel>, n: int)
    requires
        0 <= n < chans.len(),
    ensures
        match decode_instant(bits, chans, n) {
            Some((_, mid, _)) => mid.len() == chans.len() && mid[n] == chans[n],
            None => true,
        },
{
    crate::format_laws::law_instant_is_read_in_channel_order(bits, chans, n);
}

proof fn lemma_same_channel_count(bits: Seq<bool>, chans: Seq<ChannelModel>, n: int)
    requires
        0 <= n,
    ensures
        match decode_instants(bits, chans, n) {
            Some((_, mid, _)) => mid.len() == chans.len(),
            None => true,
        },
{
    crate::format_laws::law_frame_is_read_in_time_order(bits, chans, n);
}

proof fn lemma_instants_step(
    tape: Seq<char>,
    bits: Seq<bool>,
    chans: Seq<ChannelModel>,
    n: int,
    frame_idx: u32,
)
    requires
        0 <= n,
    ensures
        instants_tape(tape, bits, chans, 0, frame_idx) == tape,
        instants_tape(tape, bits, chans, n + 1, frame_idx) == {
            let before = instants_tape(tape, bits, chans, n, frame_idx);
            match decode_instants(bits, chans, n) {
                Some((_, mid, rest)) => {
                    let t = instant_tape(
                        before,
                        rest,
                        mid,
                        mid.len() as int,
                        frame_idx,
                        n * mid.len(),
                    );
                    match decode_instant(rest, mid, mid.len() as int) {
                        Some((values, _, _)) => sample_tape(t, frame_idx, low32(n), values),
                        None => t,
                    }
                },
                None => before,
            }
        },
{
    reveal_with_fuel(instants_tape, 1);
}

/// An instant ends with its samples; with more than one channel, its values
/// and its samples go before them as what decorrelation started from and
/// came to.
pub proof fn law_samples_on_tape(
    tape: Seq<char>,
    frame_idx: u32,
    sample_idx: u32,
    values: Seq<i32>,
)
    ensures
        values.len() <= 1 ==> sample_tape(tape, frame_idx, sample_idx, values) == tape
            + pcm_out_line(frame_idx, sample_idx, inverse_spec(values)),
        values.len() > 1 ==> sample_tape(tape, frame_idx, sample_idx, values) == tape
            + decorr_pre_line(frame_idx, sample_idx, values) + decorr_post_line(
            frame_idx,
            sample_idx,
            inverse_spec(values),
        ) + pcm_out_line(frame_idx, sample_idx, inverse_spec(values)),
{
    reveal(sample_tape);
}

/// The instants of a frame follow each other in time, each with its steps and
/// then its samples; steps are numbered through the frame.
#[verifier::rlimit(60)]
pub proof fn law_instants_on_tape(
    tape: Seq<char>,
    bits: Seq<bool>,
    chans: Seq<ChannelModel>,
    n: int,
    frame_idx: u32,
)
    requires
        0 <= n <= u32::MAX,
    ensures
        instants_tape(tape, bits, chans, 0, frame_idx) == tape,
        ({
            let before = instants_tape(tape, bits, chans, n, frame_idx);
            let after = instants_tape(tape, bits, chans, n + 1, frame_idx);
            let k = chans.len() as int;
            match decode_instants(bits, chans, n) {
                None => after == before,
                Some((_, mid, rest)) => {
                    let steps = instant_tape(before, rest, mid, k, frame_idx, n * k);
                    match decode_instant(rest, mid, k) {
                        None => after == steps,
                        Some((values, _, _)) => after == sample_tape(
                            steps,
                            frame_idx,
                            n as u32,
                            values,
                        ),
                    }
                },
            }
        }),
{
    lemma_same_channel_count(bits, chans, n);
    lemma_instants_step(tape, bits, chans, n, frame_idx);
    assert(low32(n) == n as u32);
}

/// A frame's block is its start, its instants and its end with both CRCs;
/// the end is missing where the codewords run out, and all of it where the
/// block is too short.
#[verifier::rlimit(60)]
pub proof fn law_frame_on_tape(
    tape: Seq<char>,
    h: StreamHeader,
    fd: FrameDescriptor,
    bytes: Seq<u8>,
    prime: Seq<i32>,
    frame_idx: u32,
)
    ensures
        ({
            let r = frame_tape(tape, h, fd, bytes, prime, frame_idx);
            let n = fd.disk_size - 4;
            if n < 0 || bytes.len() < fd.disk_size {
                r == tape
            } else {
                let body = bytes.take(n);
                let bits = stream_bits(body);
                let chans = initial_channels(
                    h.channels as nat,
                    byte_width(h.bits_per_sample),
                    prime,
                );
                let stored = (bytes[n] + 0x100 * bytes[n + 1] + 0x1_0000 * bytes[n + 2]
                    + 0x100_0000 * bytes[n + 3]) as u32;
                let t = instants_tape(
                    tape + frame_begin_line(frame_idx, fd.sample_count),
                    bits,
                    chans,
                    fd.sample_count as int,
                    frame_idx,
                );
                match decode_instants(bits, chans, fd.sample_count as int) {
                    None => r == t,
                    Some(_) => r == t + frame_end_line(
                        frame_idx,
                        crc32_spec(body),
                        stored,
                        crc32_spec(body) == stored,
                    ),
                }
            }
        }),
{
    reveal(frame_tape);
}

/// Frames follow each other up to the first that fails.
pub proof fn law_frames_on_tape(tape: Seq<char>, m: StreamModel, i: int)
    requires
        0 <= i <= m.frames.len(),
        m.frames.len() <= u32::MAX,
    ensures
        i == m.frames.len() ==> frames_tape(tape, m, i) == tape,
        i < m.frames.len() ==> ({
            let from = m.frames[i].file_offset as int;
            let to = from + m.frames[i].disk_size;
            let t = frame_tape(
                tape,
                m.header,
                m.frames[i],
                m.bytes.subrange(from, to),
                m.prime,
                i as u32,
            );
            if to > m.bytes.len() {
                frames_tape(tape, m, i) == tape
            } else if m.frame(i) is Ok {
                frames_tape(tape, m, i) == frames_tape(t, m, i + 1)
            } else {
                frames_tape(tape, m, i) == t
            }
        }),
{
}

/// The seek table's entries follow each other in order.
pub proof fn law_entries_on_tape(tape: Seq<char>, m: StreamModel, n: int)
    requires
        0 <= n < m.frames.len(),
        n <= u32::MAX,
    ensures
        entries_tape(tape, m, 0) == tape,
        entries_tape(tape, m, n + 1) == entries_tape(tape, m, n) + seek_entry_line(
            n as u32,
            m.frames[n].disk_size,
            m.frames[n].file_offset,
        ),
{
}

/// Each channel's constants are recorded once, in channel order, under the
/// frame number -1.
pub proof fn law_inits_on_tape(tape: Seq<char>, h: StreamHeader, n: int)
    requires
        0 <= n < h.channels,
        1 <= byte_width(h.bits_per_sample) <= 3,
    ensures
        inits_tape(tape, h, 0) == tape,
        ({
            let two = byte_width(h.bits_per_sample) == 2;
            inits_tape(tape, h, n + 1) == inits_tape(tape, h, n) + lms_init_line(
                (-1) as i32,
                n as u32,
                if two { 9 } else { 10 },
                if two { 256 } else { 512 },
            ) + rice_k_init_line((-1) as i32, n as u32, 10, 10, 0x4000, 0x4000)
        }),
{
}

/// Before the frames the tape has the header's fields, its CRC, the seek
/// table and the channels' constants.
pub proof fn law_file_on_tape(tape: Seq<char>, m: StreamModel, header_crc: u32)
    requires
        m.frames.len() <= u32::MAX,
    ensures
        ({
            let h = m.header;
            let start = tape + file_header_line(
                true,
                h.format as u32,
                h.channels as u32,
                h.bits_per_sample as u32,
                h.sample_rate,
                h.total_samples,
            ) + header_crc_line(true, header_crc) + seek_table_begin_line(m.frames.len() as u32);
            let table = entries_tape(start, m, m.frames.len() as int) + seek_table_end_line(
                m.seekable,
            );
            let front = inits_tape(table, h, h.channels as int);
            &&& file_tape(tape, m, header_crc) == front
            &&& stream_tape(tape, m, header_crc) == frames_tape(front, m, 0)
        }),
{
}

} // verus!
