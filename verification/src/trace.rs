//! The trace tape: one line of tab-separated fields per decoding event.
//!
//! Decoding with a tape gives the same samples as decoding without one; the
//! tape records every intermediate value on the way. What becomes of the text
//! is up to the caller.

use crate::bitreader::BitReader;
use crate::bits::stream_bits;
use crate::bytes::{le32, read_le32};
use crate::channel::{channel_views, init_channels, prime_or_zero, ChannelModel, ChannelState};
use crate::crc32::{crc32, crc32_spec};
use crate::decoder::{frame_result, same_pcm, Decoder, StreamModel};
use crate::decorr::{inverse, inverse_spec};
use crate::error::{Error, Result};
use crate::frame::{decode_body, decode_instant, decode_instants, initial_channels};
use crate::header::{byte_width, FrameDescriptor, StreamHeader};
use crate::lms::{LmsModel, LmsState};
use crate::rice::{decode_one_traced, decode_step, RiceState};
use crate::stage_b::stage_b_prediction;
use crate::text::{hex, push_decimal, push_hex, push_signed, signed_decimal};
use vstd::prelude::*;
use vstd::slice::slice_subrange;
use vstd::string::*;

verus! {

/// A line that names its event and has no fields yet.
pub open spec fn begun(name: Seq<char>) -> Seq<char> {
    "ev="@ + name
}

/// A line with a field's name appended.
pub open spec fn keyed(line: Seq<char>, key: Seq<char>) -> Seq<char> {
    line + "\t"@ + key + "="@
}

/// A line with a number appended.
pub open spec fn with_int(line: Seq<char>, key: Seq<char>, value: int) -> Seq<char> {
    keyed(line, key) + signed_decimal(value)
}

/// A line with a flag appended, as `1` or `0`.
pub open spec fn with_flag(line: Seq<char>, key: Seq<char>, value: bool) -> Seq<char> {
    keyed(line, key) + if value {
        "1"@
    } else {
        "0"@
    }
}

/// A line with eight hexadecimal digits appended.
pub open spec fn with_hex(line: Seq<char>, key: Seq<char>, value: u32) -> Seq<char> {
    keyed(line, key) + "0x"@ + hex(value as nat, 8)
}

/// Numbers in decimal, separated by commas.
pub open spec fn list_text(values: Seq<i32>) -> Seq<char>
    decreases values.len(),
{
    if values.len() == 0 {
        Seq::empty()
    } else if values.len() == 1 {
        signed_decimal(values[0] as int)
    } else {
        list_text(values.drop_last()) + ","@ + signed_decimal(values.last() as int)
    }
}

/// A line with a list of numbers appended.
pub open spec fn with_list(line: Seq<char>, key: Seq<char>, values: Seq<i32>) -> Seq<char> {
    keyed(line, key) + list_text(values)
}

/// A finished line.
pub open spec fn ended(line: Seq<char>) -> Seq<char> {
    line + "\n"@
}

/// The header's fields.
#[verifier::opaque]
pub open spec fn file_header_line(
    magic_ok: bool,
    format: u32,
    nch: u32,
    bps: u32,
    sample_rate: u32,
    samples_total: u32,
) -> Seq<char> {
    let l = begun("FILE_HEADER"@);
    let l = with_flag(l, "magic_ok"@, magic_ok);
    let l = with_int(l, "format"@, format as int);
    let l = with_int(l, "nch"@, nch as int);
    let l = with_int(l, "bps"@, bps as int);
    let l = with_int(l, "sample_rate"@, sample_rate as int);
    let l = with_int(l, "samples_total"@, samples_total as int);
    ended(l)
}

/// The header's CRC.
#[verifier::opaque]
pub open spec fn header_crc_line(crc_ok: bool, computed_crc: u32) -> Seq<char> {
    let l = begun("HEADER_CRC"@);
    let l = with_flag(l, "crc_ok"@, crc_ok);
    let l = with_hex(l, "computed_crc"@, computed_crc);
    ended(l)
}

/// The seek table starts.
#[verifier::opaque]
pub open spec fn seek_table_begin_line(frame_count: u32) -> Seq<char> {
    let l = begun("SEEK_TABLE_BEGIN"@);
    let l = with_int(l, "frame_count"@, frame_count as int);
    ended(l)
}

/// One seek-table entry.
#[verifier::opaque]
pub open spec fn seek_entry_line(
    frame_idx: u32,
    byte_length: u32,
    cumulative_offset: u64,
) -> Seq<char> {
    let l = begun("SEEK_ENTRY"@);
    let l = with_int(l, "frame_idx"@, frame_idx as int);
    let l = with_int(l, "byte_length"@, byte_length as int);
    let l = with_int(l, "cumulative_offset"@, cumulative_offset as int);
    ended(l)
}

/// The seek table ends.
#[verifier::opaque]
pub open spec fn seek_table_end_line(crc_ok: bool) -> Seq<char> {
    let l = begun("SEEK_TABLE_END"@);
    let l = with_flag(l, "crc_ok"@, crc_ok);
    ended(l)
}

/// A channel's Stage-A constants.
#[verifier::opaque]
pub open spec fn lms_init_line(frame_idx: i32, channel: u32, shift: i32, round: i32) -> Seq<char> {
    let l = begun("LMS_INIT"@);
    let l = with_int(l, "frame_idx"@, frame_idx as int);
    let l = with_int(l, "channel"@, channel as int);
    let l = with_int(l, "shift"@, shift as int);
    let l = with_int(l, "round"@, round as int);
    ended(l)
}

/// A channel's initial Rice parameters.
#[verifier::opaque]
pub open spec fn rice_k_init_line(
    frame_idx: i32,
    channel: u32,
    k0_init: u32,
    k1_init: u32,
    sum0_init: u32,
    sum1_init: u32,
) -> Seq<char> {
    let l = begun("RICE_K_INIT"@);
    let l = with_int(l, "frame_idx"@, frame_idx as int);
    let l = with_int(l, "channel"@, channel as int);
    let l = with_int(l, "k0_init"@, k0_init as int);
    let l = with_int(l, "k1_init"@, k1_init as int);
    let l = with_int(l, "sum0_init"@, sum0_init as int);
    let l = with_int(l, "sum1_init"@, sum1_init as int);
    ended(l)
}

/// A frame starts.
#[verifier::opaque]
pub open spec fn frame_begin_line(frame_idx: u32, expected_samples: u32) -> Seq<char> {
    let l = begun("FRAME_BEGIN"@);
    let l = with_int(l, "frame_idx"@, frame_idx as int);
    let l = with_int(l, "expected_samples"@, expected_samples as int);
    ended(l)
}

/// A frame ends.
#[verifier::opaque]
pub open spec fn frame_end_line(
    frame_idx: u32,
    computed_crc: u32,
    expected_crc: u32,
    ok: bool,
) -> Seq<char> {
    let l = begun("FRAME_END"@);
    let l = with_int(l, "frame_idx"@, frame_idx as int);
    let l = with_hex(l, "computed_crc"@, computed_crc);
    let l = with_hex(l, "expected_crc"@, expected_crc);
    let l = with_flag(l, "ok"@, ok);
    ended(l)
}

/// One codeword decoded.
#[verifier::opaque]
pub open spec fn rice_decode_line(
    frame_idx: u32,
    step_idx: u32,
    channel: u32,
    raw_unary: u32,
    mode: bool,
    k_used: u32,
    residual_signed: i32,
) -> Seq<char> {
    let l = begun("RICE_DECODE"@);
    let l = with_int(l, "frame_idx"@, frame_idx as int);
    let l = with_int(l, "step_idx"@, step_idx as int);
    let l = with_int(l, "channel"@, channel as int);
    let l = with_int(l, "raw_unary"@, raw_unary as int);
    let l = with_flag(l, "mode"@, mode);
    let l = with_int(l, "k_used"@, k_used as int);
    let l = with_int(l, "residual_signed"@, residual_signed as int);
    ended(l)
}

/// Rice parameters after a codeword.
#[verifier::opaque]
pub open spec fn rice_k_update_line(
    frame_idx: u32,
    step_idx: u32,
    channel: u32,
    k0_post: u32,
    k1_post: u32,
    sum0_post: u32,
    sum1_post: u32,
) -> Seq<char> {
    let l = begun("RICE_K_UPDATE"@);
    let l = with_int(l, "frame_idx"@, frame_idx as int);
    let l = with_int(l, "step_idx"@, step_idx as int);
    let l = with_int(l, "channel"@, channel as int);
    let l = with_int(l, "k0_post"@, k0_post as int);
    let l = with_int(l, "k1_post"@, k1_post as int);
    let l = with_int(l, "sum0_post"@, sum0_post as int);
    let l = with_int(l, "sum1_post"@, sum1_post as int);
    ended(l)
}

/// Stage-A registers before a step.
#[verifier::opaque]
pub open spec fn lms_pre_line(
    frame_idx: u32,
    step_idx: u32,
    channel: u32,
    dl_pre: Seq<i32>,
    dx_pre: Seq<i32>,
    qm_pre: Seq<i32>,
) -> Seq<char> {
    let l = begun("LMS_PRE"@);
    let l = with_int(l, "frame_idx"@, frame_idx as int);
    let l = with_int(l, "step_idx"@, step_idx as int);
    let l = with_int(l, "channel"@, channel as int);
    let l = with_list(l, "dl_pre"@, dl_pre);
    let l = with_list(l, "dx_pre"@, dx_pre);
    let l = with_list(l, "qm_pre"@, qm_pre);
    ended(l)
}

/// A Stage-A prediction.
#[verifier::opaque]
pub open spec fn stage_a_predict_line(
    frame_idx: u32,
    step_idx: u32,
    channel: u32,
    predicted_a: i32,
    error_a: i32,
    sample_after_a: i32,
) -> Seq<char> {
    let l = begun("STAGE_A_PREDICT"@);
    let l = with_int(l, "frame_idx"@, frame_idx as int);
    let l = with_int(l, "step_idx"@, step_idx as int);
    let l = with_int(l, "channel"@, channel as int);
    let l = with_int(l, "predicted_a"@, predicted_a as int);
    let l = with_int(l, "error_a"@, error_a as int);
    let l = with_int(l, "sample_after_a"@, sample_after_a as int);
    ended(l)
}

/// Stage-A registers after a step.
#[verifier::opaque]
pub open spec fn lms_post_line(
    frame_idx: u32,
    step_idx: u32,
    channel: u32,
    dl_post: Seq<i32>,
    dx_post: Seq<i32>,
    qm_post: Seq<i32>,
    error_pre: i32,
) -> Seq<char> {
    let l = begun("LMS_POST"@);
    let l = with_int(l, "frame_idx"@, frame_idx as int);
    let l = with_int(l, "step_idx"@, step_idx as int);
    let l = with_int(l, "channel"@, channel as int);
    let l = with_list(l, "dl_post"@, dl_post);
    let l = with_list(l, "dx_post"@, dx_post);
    let l = with_list(l, "qm_post"@, qm_post);
    let l = with_int(l, "error_pre"@, error_pre as int);
    ended(l)
}

/// A Stage-B prediction.
#[verifier::opaque]
pub open spec fn stage_b_predict_line(
    frame_idx: u32,
    step_idx: u32,
    channel: u32,
    prev_in: i32,
    predicted_b: i32,
    residual_b: i32,
    sample_after_b: i32,
) -> Seq<char> {
    let l = begun("STAGE_B_PREDICT"@);
    let l = with_int(l, "frame_idx"@, frame_idx as int);
    let l = with_int(l, "step_idx"@, step_idx as int);
    let l = with_int(l, "channel"@, channel as int);
    let l = with_int(l, "prev_in"@, prev_in as int);
    let l = with_int(l, "predicted_b"@, predicted_b as int);
    let l = with_int(l, "residual_b"@, residual_b as int);
    let l = with_int(l, "sample_after_b"@, sample_after_b as int);
    ended(l)
}

/// An instant before decorrelation is undone.
#[verifier::opaque]
pub open spec fn decorr_pre_line(
    frame_idx: u32,
    sample_idx: u32,
    raw_per_channel: Seq<i32>,
) -> Seq<char> {
    let l = begun("DECORR_PRE"@);
    let l = with_int(l, "frame_idx"@, frame_idx as int);
    let l = with_int(l, "sample_idx"@, sample_idx as int);
    let l = with_int(l, "nch"@, raw_per_channel.len() as int);
    let l = with_list(l, "raw_per_channel"@, raw_per_channel);
    ended(l)
}

/// An instant after decorrelation is undone.
#[verifier::opaque]
pub open spec fn decorr_post_line(
    frame_idx: u32,
    sample_idx: u32,
    decorrelated_per_channel: Seq<i32>,
) -> Seq<char> {
    let l = begun("DECORR_POST"@);
    let l = with_int(l, "frame_idx"@, frame_idx as int);
    let l = with_int(l, "sample_idx"@, sample_idx as int);
    let l = with_int(l, "nch"@, decorrelated_per_channel.len() as int);
    let l = with_list(l, "decorrelated_per_channel"@, decorrelated_per_channel);
    ended(l)
}

/// An instant's samples.
#[verifier::opaque]
pub open spec fn pcm_out_line(
    frame_idx: u32,
    sample_idx: u32,
    final_per_channel: Seq<i32>,
) -> Seq<char> {
    let l = begun("PCM_OUT"@);
    let l = with_int(l, "frame_idx"@, frame_idx as int);
    let l = with_int(l, "sample_idx"@, sample_idx as int);
    let l = with_int(l, "nch"@, final_per_channel.len() as int);
    let l = with_list(l, "final_per_channel"@, final_per_channel);
    ended(l)
}

fn begin(name: &str) -> (line: String)
    ensures
        line@ == begun(name@),
{
    String::from_str("ev=").concat(name)
}

fn key_of(line: &mut String, key: &str)
    ensures
        final(line)@ == keyed(old(line)@, key@),
{
    line.append("\t");
    line.append(key);
    line.append("=");
}

fn field_u(line: &mut String, key: &str, value: u64)
    ensures
        final(line)@ == with_int(old(line)@, key@, value as int),
{
    key_of(line, key);
    push_decimal(line, value);
}

fn field_i(line: &mut String, key: &str, value: i64)
    ensures
        final(line)@ == with_int(old(line)@, key@, value as int),
{
    key_of(line, key);
    push_signed(line, value);
}

fn field_b(line: &mut String, key: &str, value: bool)
    ensures
        final(line)@ == with_flag(old(line)@, key@, value),
{
    key_of(line, key);
    if value {
        line.append("1");
    } else {
        line.append("0");
    }
}

fn field_hex32(line: &mut String, key: &str, value: u32)
    ensures
        final(line)@ == with_hex(old(line)@, key@, value),
{
    key_of(line, key);
    line.append("0x");
    push_hex(line, value as u64, 8);
}

fn field_arr_i(line: &mut String, key: &str, values: &[i32])
    ensures
        final(line)@ == with_list(old(line)@, key@, values@),
{
    key_of(line, key);
    let ghost start = line@;
    let mut i: usize = 0;
    assert(values@.take(0) =~= Seq::<i32>::empty());
    assert(start + Seq::<char>::empty() =~= start);
    while i < values.len()
        invariant
            i <= values@.len(),
            line@ == start + list_text(values@.take(i as int)),
        decreases values@.len() - i,
    {
        if i > 0 {
            line.append(",");
        }
        push_signed(line, values[i] as i64);
        proof {
            let next = values@.take(i + 1);
            assert(next.drop_last() =~= values@.take(i as int));
            assert(line@ =~= start + list_text(next));
        }
        i = i + 1;
    }
    assert(values@.take(i as int) =~= values@);
}

/// The tape: all lines recorded so far.
pub struct TraceWriter {
    text: String,
}

impl View for TraceWriter {
    type V = Seq<char>;

    closed spec fn view(&self) -> Seq<char> {
        self.text@
    }
}

impl TraceWriter {
    /// An empty tape.
    pub fn new() -> (r: Self)
        ensures
            r@ == Seq::<char>::empty(),
    {
        TraceWriter { text: String::new() }
    }

    /// The recorded text.
    pub fn text(&self) -> (r: &str)
        ensures
            r@ == self@,
    {
        self.text.as_str()
    }

    fn flush_line(&mut self, line: String)
        ensures
            final(self)@ == old(self)@ + ended(line@),
    {
        let whole = line.concat("\n");
        self.text.append(whole.as_str());
    }

    /// Record: the header's fields.
    pub fn ev_file_header(
        &mut self,
        magic_ok: bool,
        format: u32,
        nch: u32,
        bps: u32,
        sample_rate: u32,
        samples_total: u32,
    )
        ensures
            final(self)@ == old(self)@ + file_header_line(
                magic_ok,
                format,
                nch,
                bps,
                sample_rate,
                samples_total,
            ),
    {
        proof {
            reveal(file_header_line);
        }
        let mut line = begin("FILE_HEADER");
        field_b(&mut line, "magic_ok", magic_ok);
        field_u(&mut line, "format", format as u64);
        field_u(&mut line, "nch", nch as u64);
        field_u(&mut line, "bps", bps as u64);
        field_u(&mut line, "sample_rate", sample_rate as u64);
        field_u(&mut line, "samples_total", samples_total as u64);
        self.flush_line(line);
    }

    /// Record: the header's CRC.
    pub fn ev_header_crc(&mut self, crc_ok: bool, computed_crc: u32)
        ensures
            final(self)@ == old(self)@ + header_crc_line(crc_ok, computed_crc),
    {
        proof {
            reveal(header_crc_line);
        }
        let mut line = begin("HEADER_CRC");
        field_b(&mut line, "crc_ok", crc_ok);
        field_hex32(&mut line, "computed_crc", computed_crc);
        self.flush_line(line);
    }

    /// Record: the seek table starts.
    pub fn ev_seek_table_begin(&mut self, frame_count: u32)
        ensures
            final(self)@ == old(self)@ + seek_table_begin_line(frame_count),
    {
        proof {
            reveal(seek_table_begin_line);
        }
        let mut line = begin("SEEK_TABLE_BEGIN");
        field_u(&mut line, "frame_count", frame_count as u64);
        self.flush_line(line);
    }

    /// Record: one seek-table entry.
    pub fn ev_seek_entry(&mut self, frame_idx: u32, byte_length: u32, cumulative_offset: u64)
        ensures
            final(self)@ == old(self)@ + seek_entry_line(frame_idx, byte_length, cumulative_offset),
    {
        proof {
            reveal(seek_entry_line);
        }
        let mut line = begin("SEEK_ENTRY");
        field_u(&mut line, "frame_idx", frame_idx as u64);
        field_u(&mut line, "byte_length", byte_length as u64);
        field_u(&mut line, "cumulative_offset", cumulative_offset);
        self.flush_line(line);
    }

    /// Record: the seek table ends.
    pub fn ev_seek_table_end(&mut self, crc_ok: bool)
        ensures
            final(self)@ == old(self)@ + seek_table_end_line(crc_ok),
    {
        proof {
            reveal(seek_table_end_line);
        }
        let mut line = begin("SEEK_TABLE_END");
        field_b(&mut line, "crc_ok", crc_ok);
        self.flush_line(line);
    }

    /// Record: a channel's Stage-A constants.
    pub fn ev_lms_init(&mut self, frame_idx: i32, channel: u32, shift: i32, round: i32)
        ensures
            final(self)@ == old(self)@ + lms_init_line(frame_idx, channel, shift, round),
    {
        proof {
            reveal(lms_init_line);
        }
        let mut line = begin("LMS_INIT");
        field_i(&mut line, "frame_idx", frame_idx as i64);
        field_u(&mut line, "channel", channel as u64);
        field_i(&mut line, "shift", shift as i64);
        field_i(&mut line, "round", round as i64);
        self.flush_line(line);
    }

    /// Record: a channel's initial Rice parameters.
    pub fn ev_rice_k_init(
        &mut self,
        frame_idx: i32,
        channel: u32,
        k0_init: u32,
        k1_init: u32,
        sum0_init: u32,
        sum1_init: u32,
    )
        ensures
            final(self)@ == old(self)@ + rice_k_init_line(
                frame_idx,
                channel,
                k0_init,
                k1_init,
                sum0_init,
                sum1_init,
            ),
    {
        proof {
            reveal(rice_k_init_line);
        }
        let mut line = begin("RICE_K_INIT");
        field_i(&mut line, "frame_idx", frame_idx as i64);
        field_u(&mut line, "channel", channel as u64);
        field_u(&mut line, "k0_init", k0_init as u64);
        field_u(&mut line, "k1_init", k1_init as u64);
        field_u(&mut line, "sum0_init", sum0_init as u64);
        field_u(&mut line, "sum1_init", sum1_init as u64);
        self.flush_line(line);
    }

    /// Record: a frame starts.
    pub fn ev_frame_begin(&mut self, frame_idx: u32, expected_samples: u32)
        ensures
            final(self)@ == old(self)@ + frame_begin_line(frame_idx, expected_samples),
    {
        proof {
            reveal(frame_begin_line);
        }
        let mut line = begin("FRAME_BEGIN");
        field_u(&mut line, "frame_idx", frame_idx as u64);
        field_u(&mut line, "expected_samples", expected_samples as u64);
        self.flush_line(line);
    }

    /// Record: a frame ends.
    pub fn ev_frame_end(&mut self, frame_idx: u32, computed_crc: u32, expected_crc: u32, ok: bool)
        ensures
            final(self)@ == old(self)@ + frame_end_line(frame_idx, computed_crc, expected_crc, ok),
    {
        proof {
            reveal(frame_end_line);
        }
        let mut line = begin("FRAME_END");
        field_u(&mut line, "frame_idx", frame_idx as u64);
        field_hex32(&mut line, "computed_crc", computed_crc);
        field_hex32(&mut line, "expected_crc", expected_crc);
        field_b(&mut line, "ok", ok);
        self.flush_line(line);
    }

    /// Record: one codeword decoded.
    pub fn ev_rice_decode(
        &mut self,
        frame_idx: u32,
        step_idx: u32,
        channel: u32,
        raw_unary: u32,
        mode: bool,
        k_used: u32,
        residual_signed: i32,
    )
        ensures
            final(self)@ == old(self)@ + rice_decode_line(
                frame_idx,
                step_idx,
                channel,
                raw_unary,
                mode,
                k_used,
                residual_signed,
            ),
    {
        proof {
            reveal(rice_decode_line);
        }
        let mut line = begin("RICE_DECODE");
        field_u(&mut line, "frame_idx", frame_idx as u64);
        field_u(&mut line, "step_idx", step_idx as u64);
        field_u(&mut line, "channel", channel as u64);
        field_u(&mut line, "raw_unary", raw_unary as u64);
        field_b(&mut line, "mode", mode);
        field_u(&mut line, "k_used", k_used as u64);
        field_i(&mut line, "residual_signed", residual_signed as i64);
        self.flush_line(line);
    }

    /// Record: rice parameters after a codeword.
    pub fn ev_rice_k_update(
        &mut self,
        frame_idx: u32,
        step_idx: u32,
        channel: u32,
        k0_post: u32,
        k1_post: u32,
        sum0_post: u32,
        sum1_post: u32,
    )
        ensures
            final(self)@ == old(self)@ + rice_k_update_line(
                frame_idx,
                step_idx,
                channel,
                k0_post,
                k1_post,
                sum0_post,
                sum1_post,
            ),
    {
        proof {
            reveal(rice_k_update_line);
        }
        let mut line = begin("RICE_K_UPDATE");
        field_u(&mut line, "frame_idx", frame_idx as u64);
        field_u(&mut line, "step_idx", step_idx as u64);
        field_u(&mut line, "channel", channel as u64);
        field_u(&mut line, "k0_post", k0_post as u64);
        field_u(&mut line, "k1_post", k1_post as u64);
        field_u(&mut line, "sum0_post", sum0_post as u64);
        field_u(&mut line, "sum1_post", sum1_post as u64);
        self.flush_line(line);
    }

    /// Record: stage-A registers before a step.
    pub fn ev_lms_pre(
        &mut self,
        frame_idx: u32,
        step_idx: u32,
        channel: u32,
        dl_pre: &[i32; 8],
        dx_pre: &[i32; 8],
        qm_pre: &[i32; 8],
    )
        ensures
            final(self)@ == old(self)@ + lms_pre_line(
                frame_idx,
                step_idx,
                channel,
                dl_pre@,
                dx_pre@,
                qm_pre@,
            ),
    {
        proof {
            reveal(lms_pre_line);
        }
        let mut line = begin("LMS_PRE");
        field_u(&mut line, "frame_idx", frame_idx as u64);
        field_u(&mut line, "step_idx", step_idx as u64);
        field_u(&mut line, "channel", channel as u64);
        field_arr_i(&mut line, "dl_pre", dl_pre);
        field_arr_i(&mut line, "dx_pre", dx_pre);
        field_arr_i(&mut line, "qm_pre", qm_pre);
        self.flush_line(line);
    }

    /// Record: a Stage-A prediction.
    pub fn ev_stage_a_predict(
        &mut self,
        frame_idx: u32,
        step_idx: u32,
        channel: u32,
        predicted_a: i32,
        error_a: i32,
        sample_after_a: i32,
    )
        ensures
            final(self)@ == old(self)@ + stage_a_predict_line(
                frame_idx,
                step_idx,
                channel,
                predicted_a,
                error_a,
                sample_after_a,
            ),
    {
        proof {
            reveal(stage_a_predict_line);
        }
        let mut line = begin("STAGE_A_PREDICT");
        field_u(&mut line, "frame_idx", frame_idx as u64);
        field_u(&mut line, "step_idx", step_idx as u64);
        field_u(&mut line, "channel", channel as u64);
        field_i(&mut line, "predicted_a", predicted_a as i64);
        field_i(&mut line, "error_a", error_a as i64);
        field_i(&mut line, "sample_after_a", sample_after_a as i64);
        self.flush_line(line);
    }

    /// Record: stage-A registers after a step.
    pub fn ev_lms_post(
        &mut self,
        frame_idx: u32,
        step_idx: u32,
        channel: u32,
        dl_post: &[i32; 8],
        dx_post: &[i32; 8],
        qm_post: &[i32; 8],
        error_pre: i32,
    )
        ensures
            final(self)@ == old(self)@ + lms_post_line(
                frame_idx,
                step_idx,
                channel,
                dl_post@,
                dx_post@,
                qm_post@,
                error_pre,
            ),
    {
        proof {
            reveal(lms_post_line);
        }
        let mut line = begin("LMS_POST");
        field_u(&mut line, "frame_idx", frame_idx as u64);
        field_u(&mut line, "step_idx", step_idx as u64);
        field_u(&mut line, "channel", channel as u64);
        field_arr_i(&mut line, "dl_post", dl_post);
        field_arr_i(&mut line, "dx_post", dx_post);
        field_arr_i(&mut line, "qm_post", qm_post);
        field_i(&mut line, "error_pre", error_pre as i64);
        self.flush_line(line);
    }

    /// Record: a Stage-B prediction.
    pub fn ev_stage_b_predict(
        &mut self,
        frame_idx: u32,
        step_idx: u32,
        channel: u32,
        prev_in: i32,
        predicted_b: i32,
        residual_b: i32,
        sample_after_b: i32,
    )
        ensures
            final(self)@ == old(self)@ + stage_b_predict_line(
                frame_idx,
                step_idx,
                channel,
                prev_in,
                predicted_b,
                residual_b,
                sample_after_b,
            ),
    {
        proof {
            reveal(stage_b_predict_line);
        }
        let mut line = begin("STAGE_B_PREDICT");
        field_u(&mut line, "frame_idx", frame_idx as u64);
        field_u(&mut line, "step_idx", step_idx as u64);
        field_u(&mut line, "channel", channel as u64);
        field_i(&mut line, "prev_in", prev_in as i64);
        field_i(&mut line, "predicted_b", predicted_b as i64);
        field_i(&mut line, "residual_b", residual_b as i64);
        field_i(&mut line, "sample_after_b", sample_after_b as i64);
        self.flush_line(line);
    }

    /// Record: an instant before decorrelation is undone.
    pub fn ev_decorr_pre(&mut self, frame_idx: u32, sample_idx: u32, raw_per_channel: &[i32])
        ensures
            final(self)@ == old(self)@ + decorr_pre_line(frame_idx, sample_idx, raw_per_channel@),
    {
        proof {
            reveal(decorr_pre_line);
        }
        let mut line = begin("DECORR_PRE");
        field_u(&mut line, "frame_idx", frame_idx as u64);
        field_u(&mut line, "sample_idx", sample_idx as u64);
        field_u(&mut line, "nch", raw_per_channel.len() as u64);
        field_arr_i(&mut line, "raw_per_channel", raw_per_channel);
        self.flush_line(line);
    }

    /// Record: an instant after decorrelation is undone.
    pub fn ev_decorr_post(
        &mut self,
        frame_idx: u32,
        sample_idx: u32,
        decorrelated_per_channel: &[i32],
    )
        ensures
            final(self)@ == old(self)@ + decorr_post_line(
                frame_idx,
                sample_idx,
                decorrelated_per_channel@,
            ),
    {
        proof {
            reveal(decorr_post_line);
        }
        let mut line = begin("DECORR_POST");
        field_u(&mut line, "frame_idx", frame_idx as u64);
        field_u(&mut line, "sample_idx", sample_idx as u64);
        field_u(&mut line, "nch", decorrelated_per_channel.len() as u64);
        field_arr_i(&mut line, "decorrelated_per_channel", decorrelated_per_channel);
        self.flush_line(line);
    }

    /// Record: an instant's samples.
    pub fn ev_pcm_out(&mut self, frame_idx: u32, sample_idx: u32, final_per_channel: &[i32])
        ensures
            final(self)@ == old(self)@ + pcm_out_line(frame_idx, sample_idx, final_per_channel@),
    {
        proof {
            reveal(pcm_out_line);
        }
        let mut line = begin("PCM_OUT");
        field_u(&mut line, "frame_idx", frame_idx as u64);
        field_u(&mut line, "sample_idx", sample_idx as u64);
        field_u(&mut line, "nch", final_per_channel.len() as u64);
        field_arr_i(&mut line, "final_per_channel", final_per_channel);
        self.flush_line(line);
    }

}

/// A count reduced to 32 bits, as the tape carries it.
pub open spec fn low32(n: int) -> u32 {
    (n % 0x1_0000_0000) as u32
}

/// The tape after one channel's step: what was read, both predictions, and
/// the state on either side. Nothing where the bits run out.
#[verifier::opaque]
pub open spec fn channel_tape(
    tape: Seq<char>,
    c: ChannelModel,
    bits: Seq<bool>,
    frame_idx: u32,
    step_idx: u32,
    channel: u32,
) -> Seq<char> {
    match decode_step(bits, c.rice) {
        None => tape,
        Some((t, _)) => {
            let e = t.residual_signed;
            let p_a = c.lms.prediction();
            let s_a = c.lms.sample(e);
            let post = c.lms.advanced(e, s_a);
            let p_b = stage_b_prediction(c.prev);
            tape + rice_decode_line(
                frame_idx,
                step_idx,
                channel,
                t.raw_unary,
                t.mode_high,
                t.k_used,
                e,
            ) + rice_k_update_line(
                frame_idx,
                step_idx,
                channel,
                t.k0_post,
                t.k1_post,
                t.sum0_post,
                t.sum1_post,
            ) + lms_pre_line(frame_idx, step_idx, channel, c.lms.dl, c.lms.dx, c.lms.qm)
                + stage_a_predict_line(frame_idx, step_idx, channel, p_a, e, s_a) + lms_post_line(
                frame_idx,
                step_idx,
                channel,
                post.dl,
                post.dx,
                post.qm,
                c.lms.error,
            ) + stage_b_predict_line(
                frame_idx,
                step_idx,
                channel,
                c.prev,
                p_b,
                s_a,
                s_a.wrapping_add(p_b),
            )
        },
    }
}

/// The tape after the first `n` channels of an instant. Steps are numbered
/// from `first_step` on.
pub open spec fn instant_tape(
    tape: Seq<char>,
    bits: Seq<bool>,
    chans: Seq<ChannelModel>,
    n: int,
    frame_idx: u32,
    first_step: int,
) -> Seq<char>
    decreases n,
{
    if n <= 0 {
        tape
    } else {
        let before = instant_tape(tape, bits, chans, n - 1, frame_idx, first_step);
        match decode_instant(bits, chans, n - 1) {
            Some((_, mid, rest)) => channel_tape(
                before,
                mid[n - 1],
                rest,
                frame_idx,
                low32(first_step + n - 1),
                low32(n - 1),
            ),
            None => before,
        }
    }
}

/// The tape after an instant's values are known: the values before and after
/// decorrelation is undone, unless there is a single channel, and the
/// samples.
#[verifier::opaque]
pub open spec fn sample_tape(
    tape: Seq<char>,
    frame_idx: u32,
    sample_idx: u32,
    values: Seq<i32>,
) -> Seq<char> {
    let pcm = inverse_spec(values);
    let t = if values.len() > 1 {
        tape + decorr_pre_line(frame_idx, sample_idx, values) + decorr_post_line(
            frame_idx,
            sample_idx,
            pcm,
        )
    } else {
        tape
    };
    t + pcm_out_line(frame_idx, sample_idx, pcm)
}

/// The tape after `n` instants.
#[verifier::opaque]
pub open spec fn instants_tape(
    tape: Seq<char>,
    bits: Seq<bool>,
    chans: Seq<ChannelModel>,
    n: int,
    frame_idx: u32,
) -> Seq<char>
    decreases n,
{
    if n <= 0 {
        tape
    } else {
        let before = instants_tape(tape, bits, chans, n - 1, frame_idx);
        match decode_instants(bits, chans, n - 1) {
            Some((_, mid, rest)) => {
                let t = instant_tape(
                    before,
                    rest,
                    mid,
                    mid.len() as int,
                    frame_idx,
                    (n - 1) * mid.len(),
                );
                match decode_instant(rest, mid, mid.len() as int) {
                    Some((values, _, _)) => sample_tape(t, frame_idx, low32(n - 1), values),
                    None => t,
                }
            },
            None => before,
        }
    }
}

/// The tape after one frame block.
#[verifier::opaque]
pub open spec fn frame_tape(
    tape: Seq<char>,
    h: StreamHeader,
    fd: FrameDescriptor,
    bytes: Seq<u8>,
    prime: Seq<i32>,
    frame_idx: u32,
) -> Seq<char> {
    if bytes.len() < fd.disk_size || fd.disk_size < 4 {
        tape
    } else {
        let body = bytes.take(fd.disk_size - 4);
        let width = byte_width(h.bits_per_sample);
        let computed = crc32_spec(body);
        let stored = le32(bytes, fd.disk_size - 4);
        let t = instants_tape(
            tape + frame_begin_line(frame_idx, fd.sample_count),
            stream_bits(body),
            initial_channels(h.channels as nat, width, prime),
            fd.sample_count as int,
            frame_idx,
        );
        match decode_body(body, h.channels as nat, width, prime, fd.sample_count as nat) {
            Some(_) => t + frame_end_line(frame_idx, computed, stored, computed == stored),
            None => t,
        }
    }
}

/// The tape after all frames from frame `i` on; it ends with the first one
/// that fails.
pub open spec fn frames_tape(tape: Seq<char>, m: StreamModel, i: int) -> Seq<char>
    decreases m.frames.len() - i,
{
    if i >= m.frames.len() {
        tape
    } else {
        let fd = m.frames[i];
        let end = fd.file_offset + fd.disk_size;
        if end > m.bytes.len() {
            tape
        } else {
            let t = frame_tape(
                tape,
                m.header,
                fd,
                m.bytes.subrange(fd.file_offset as int, end),
                m.prime,
                low32(i),
            );
            match m.frame(i) {
                Ok(_) => frames_tape(t, m, i + 1),
                Err(_) => t,
            }
        }
    }
}

/// The tape after the first `n` seek-table entries.
pub open spec fn entries_tape(tape: Seq<char>, m: StreamModel, n: int) -> Seq<char>
    decreases n,
{
    if n <= 0 {
        tape
    } else {
        entries_tape(tape, m, n - 1) + seek_entry_line(
            low32(n - 1),
            m.frames[n - 1].disk_size,
            m.frames[n - 1].file_offset,
        )
    }
}

/// The tape after the first `n` channels' initial state.
pub open spec fn inits_tape(tape: Seq<char>, h: StreamHeader, n: int) -> Seq<char>
    decreases n,
{
    if n <= 0 {
        tape
    } else {
        let lms = LmsModel::initial(byte_width(h.bits_per_sample), crate::lms::zero_taps());
        let rice = RiceState::initial();
        inits_tape(tape, h, n - 1) + lms_init_line(
            (-1) as i32,
            low32(n - 1),
            lms.shift,
            lms.round,
        ) + rice_k_init_line((-1) as i32, low32(n - 1), rice.k0, rice.k1, rice.sum0, rice.sum1)
    }
}

/// The tape of everything known before the first frame.
pub open spec fn file_tape(tape: Seq<char>, m: StreamModel, header_crc: u32) -> Seq<char> {
    let h = m.header;
    let t = tape + file_header_line(
        true,
        h.format as u32,
        h.channels as u32,
        h.bits_per_sample as u32,
        h.sample_rate,
        h.total_samples,
    ) + header_crc_line(true, header_crc) + seek_table_begin_line(low32(m.frames.len() as int));
    let t = entries_tape(t, m, m.frames.len() as int) + seek_table_end_line(m.seekable);
    inits_tape(t, h, h.channels as int)
}

/// The tape of a whole stream.
pub open spec fn stream_tape(tape: Seq<char>, m: StreamModel, header_crc: u32) -> Seq<char> {
    frames_tape(file_tape(tape, m, header_crc), m, 0)
}

proof fn lemma_instant_tape_stops(
    tape: Seq<char>,
    bits: Seq<bool>,
    chans: Seq<ChannelModel>,
    n: int,
    m: int,
    frame_idx: u32,
    first_step: int,
)
    requires
        n <= m,
        decode_instant(bits, chans, n) is None,
    ensures
        decode_instant(bits, chans, m) is None,
        instant_tape(tape, bits, chans, m, frame_idx, first_step) == instant_tape(
            tape,
            bits,
            chans,
            n,
            frame_idx,
            first_step,
        ),
    decreases m - n,
{
    if n < m {
        lemma_instant_tape_stops(tape, bits, chans, n, m - 1, frame_idx, first_step);
    }
}

proof fn lemma_instants_tape_stops(
    tape: Seq<char>,
    bits: Seq<bool>,
    chans: Seq<ChannelModel>,
    n: int,
    m: int,
    frame_idx: u32,
)
    requires
        n <= m,
        decode_instants(bits, chans, n) is None,
    ensures
        decode_instants(bits, chans, m) is None,
        instants_tape(tape, bits, chans, m, frame_idx) == instants_tape(
            tape,
            bits,
            chans,
            n,
            frame_idx,
        ),
    decreases m - n,
{
    reveal_with_fuel(instants_tape, 2);
    if n < m {
        lemma_instants_tape_stops(tape, bits, chans, n, m - 1, frame_idx);
    }
}

/// One more instant on the tape.
proof fn lemma_tape_step(
    tape: Seq<char>,
    bits: Seq<bool>,
    chans: Seq<ChannelModel>,
    s: int,
    frame_idx: u32,
    first_step: int,
)
    requires
        0 <= s,
        match decode_instants(bits, chans, s) {
            Some((_, mid, _)) => first_step == s * mid.len(),
            None => false,
        },
    ensures
        ({
            let (pcm, mid, rest) = decode_instants(bits, chans, s)->0;
            let t = instant_tape(
                instants_tape(tape, bits, chans, s, frame_idx),
                rest,
                mid,
                mid.len() as int,
                frame_idx,
                first_step,
            );
            match decode_instant(rest, mid, mid.len() as int) {
                Some((values, post, after)) => {
                    &&& decode_instants(bits, chans, s + 1) == Some(
                        (pcm + inverse_spec(values), post, after),
                    )
                    &&& instants_tape(tape, bits, chans, s + 1, frame_idx) == sample_tape(
                        t,
                        frame_idx,
                        low32(s),
                        values,
                    )
                },
                None => {
                    &&& decode_instants(bits, chans, s + 1) is None
                    &&& instants_tape(tape, bits, chans, s + 1, frame_idx) == t
                },
            }
        }),
{
    reveal_with_fuel(instants_tape, 2);
}

/// Decode one channel's sample and record the step.
fn decode_channel_traced(
    cs: &mut ChannelState,
    reader: &mut BitReader<'_>,
    tape: &mut TraceWriter,
    frame_idx: u32,
    step_idx: u32,
    channel: u32,
) -> (r: Result<i32>)
    requires
        old(cs)@.wf(),
        old(reader).wf(),
    ensures
        final(cs)@.wf(),
        final(reader).wf(),
        match r {
            Ok(s) => old(cs)@.decode(old(reader)@) == Some((s, final(cs)@, final(reader)@)),
            Err(e) => e == Error::Truncated && old(cs)@.decode(old(reader)@) is None,
        },
        final(tape)@ == channel_tape(
            old(tape)@,
            old(cs)@,
            old(reader)@,
            frame_idx,
            step_idx,
            channel,
        ),
{
    proof {
        reveal(channel_tape);
    }
    let rice_t = match decode_one_traced(reader, &mut cs.rice) {
        Ok(t) => t,
        Err(e) => {
            return Err(e);
        },
    };
    let e: i32 = rice_t.residual_signed;
    tape.ev_rice_decode(
        frame_idx,
        step_idx,
        channel,
        rice_t.raw_unary,
        rice_t.mode_high,
        rice_t.k_used,
        e,
    );
    tape.ev_rice_k_update(
        frame_idx,
        step_idx,
        channel,
        rice_t.k0_post,
        rice_t.k1_post,
        rice_t.sum0_post,
        rice_t.sum1_post,
    );
    let lms_t = cs.lms.step_traced(e);
    tape.ev_lms_pre(frame_idx, step_idx, channel, &lms_t.dl_pre, &lms_t.dx_pre, &lms_t.qm_pre);
    tape.ev_stage_a_predict(
        frame_idx,
        step_idx,
        channel,
        lms_t.predicted_a,
        e,
        lms_t.sample_after_a,
    );
    tape.ev_lms_post(
        frame_idx,
        step_idx,
        channel,
        &lms_t.dl_post,
        &lms_t.dx_post,
        &lms_t.qm_post,
        lms_t.error_pre,
    );
    let sb_t = cs.stage_b.step_traced(lms_t.sample_after_a);
    tape.ev_stage_b_predict(
        frame_idx,
        step_idx,
        channel,
        sb_t.prev_in,
        sb_t.predicted_b,
        sb_t.residual_b,
        sb_t.sample_after_b,
    );
    Ok(sb_t.sample_after_b)
}

/// Decode one instant into `scratch` and record every step. `false` where
/// the bits run out.
fn decode_tuple_traced(
    reader: &mut BitReader<'_>,
    chans: &mut Vec<ChannelState>,
    scratch: &mut Vec<i32>,
    tape: &mut TraceWriter,
    frame_idx: u32,
    first_step: u64,
) -> (ok: bool)
    requires
        old(reader).wf(),
        first_step + old(chans)@.len() <= u64::MAX,
        forall|i: int| 0 <= i < old(chans)@.len() ==> (#[trigger] old(chans)@[i])@.wf(),
    ensures
        final(reader).wf(),
        final(chans)@.len() == old(chans)@.len(),
        forall|i: int| 0 <= i < final(chans)@.len() ==> (#[trigger] final(chans)@[i])@.wf(),
        ok ==> decode_instant(
            old(reader)@,
            channel_views(old(chans)@),
            old(chans)@.len() as int,
        ) == Some((final(scratch)@, channel_views(final(chans)@), final(reader)@)),
        !ok ==> decode_instant(
            old(reader)@,
            channel_views(old(chans)@),
            old(chans)@.len() as int,
        ) is None,
        final(tape)@ == instant_tape(
            old(tape)@,
            old(reader)@,
            channel_views(old(chans)@),
            old(chans)@.len() as int,
            frame_idx,
            first_step as int,
        ),
{
    let ghost bits = reader@;
    let ghost start = channel_views(chans@);
    let ghost t0 = tape@;
    scratch.clear();
    let mut ch: usize = 0;
    while ch < chans.len()
        invariant
            ch <= chans@.len(),
            first_step + chans@.len() <= u64::MAX,
            bits == old(reader)@,
            start == channel_views(old(chans)@),
            t0 == old(tape)@,
            reader.wf(),
            start.len() == chans@.len(),
            forall|i: int| 0 <= i < chans@.len() ==> (#[trigger] chans@[i])@.wf(),
            decode_instant(bits, start, ch as int) == Some(
                (scratch@, channel_views(chans@), reader@),
            ),
            tape@ == instant_tape(t0, bits, start, ch as int, frame_idx, first_step as int),
        decreases chans@.len() - ch,
    {
        let ghost mid = channel_views(chans@);
        let step: u32 = ((first_step + ch as u64) % 0x1_0000_0000) as u32;
        let channel: u32 = (ch as u64 % 0x1_0000_0000) as u32;
        match decode_channel_traced(&mut chans[ch], reader, tape, frame_idx, step, channel) {
            Ok(v) => {
                scratch.push(v);
                assert(channel_views(chans@) =~= mid.update(ch as int, chans@[ch as int]@));
            },
            Err(_) => {
                proof {
                    assert(decode_instant(bits, start, ch + 1) is None);
                    lemma_instant_tape_stops(
                        t0,
                        bits,
                        start,
                        ch + 1,
                        start.len() as int,
                        frame_idx,
                        first_step as int,
                    );
                }
                return false;
            },
        }
        ch = ch + 1;
    }
    true
}

/// Undo the decorrelation of one instant and record it.
fn undo_decorrelation_traced(
    values: &mut Vec<i32>,
    tape: &mut TraceWriter,
    frame_idx: u32,
    sample_idx: u32,
)
    ensures
        final(values)@ == inverse_spec(old(values)@),
        final(tape)@ == sample_tape(old(tape)@, frame_idx, sample_idx, old(values)@),
{
    proof {
        reveal(sample_tape);
    }
    let many = values.len() > 1;
    if many {
        tape.ev_decorr_pre(frame_idx, sample_idx, values.as_slice());
    }
    inverse(values.as_mut_slice());
    if many {
        tape.ev_decorr_post(frame_idx, sample_idx, values.as_slice());
    }
    tape.ev_pcm_out(frame_idx, sample_idx, values.as_slice());
}

/// Decode one instant, append its samples to `out` and record it. `false`
/// where the bits run out.
fn decode_instant_traced(
    reader: &mut BitReader<'_>,
    chans: &mut Vec<ChannelState>,
    scratch: &mut Vec<i32>,
    out: &mut Vec<i32>,
    tape: &mut TraceWriter,
    frame_idx: u32,
    sample_idx: u32,
    first_step: u64,
) -> (ok: bool)
    requires
        old(reader).wf(),
        first_step + old(chans)@.len() <= u64::MAX,
        forall|i: int| 0 <= i < old(chans)@.len() ==> (#[trigger] old(chans)@[i])@.wf(),
    ensures
        final(reader).wf(),
        final(chans)@.len() == old(chans)@.len(),
        forall|i: int| 0 <= i < final(chans)@.len() ==> (#[trigger] final(chans)@[i])@.wf(),
        ({
            let start = channel_views(old(chans)@);
            let n = old(chans)@.len() as int;
            let t = instant_tape(
                old(tape)@,
                old(reader)@,
                start,
                n,
                frame_idx,
                first_step as int,
            );
            match decode_instant(old(reader)@, start, n) {
                Some((values, post, after)) => {
                    &&& ok
                    &&& final(out)@ == old(out)@ + inverse_spec(values)
                    &&& channel_views(final(chans)@) == post
                    &&& final(reader)@ == after
                    &&& final(tape)@ == sample_tape(t, frame_idx, sample_idx, values)
                },
                None => !ok && final(tape)@ == t,
            }
        }),
{
    if !decode_tuple_traced(reader, chans, scratch, tape, frame_idx, first_step) {
        return false;
    }
    undo_decorrelation_traced(scratch, tape, frame_idx, sample_idx);
    out.extend_from_slice(scratch.as_slice());
    assert(out@ =~= old(out)@ + scratch@);
    true
}

/// Decode a frame body and record every instant. `None` where the bits run
/// out.
#[verifier::rlimit(60)]
fn decode_body_traced(
    body: &[u8],
    nch: usize,
    bytes_per_sample: usize,
    qm_priming: Option<[i32; 8]>,
    sample_count: u32,
    frame_idx: u32,
    tape: &mut TraceWriter,
) -> (r: Option<Vec<i32>>)
    requires
        nch <= 0xFFFF,
        nch > 0 ==> 1 <= bytes_per_sample <= 3,
    ensures
        match r {
            Some(out) => decode_body(
                body@,
                nch as nat,
                bytes_per_sample as int,
                prime_or_zero(qm_priming),
                sample_count as nat,
            ) == Some(out@),
            None => decode_body(
                body@,
                nch as nat,
                bytes_per_sample as int,
                prime_or_zero(qm_priming),
                sample_count as nat,
            ) is None,
        },
        final(tape)@ == instants_tape(
            old(tape)@,
            stream_bits(body@),
            initial_channels(
                nch as nat,
                bytes_per_sample as int,
                prime_or_zero(qm_priming),
            ),
            sample_count as int,
            frame_idx,
        ),
{
    let mut reader = BitReader::new(body);
    let mut chans: Vec<ChannelState> = init_channels(nch, bytes_per_sample, qm_priming);
    let ghost start = channel_views(chans@);
    let ghost bits = stream_bits(body@);
    let ghost t0 = tape@;
    let ghost goal = instants_tape(t0, bits, start, sample_count as int, frame_idx);
    let ghost decoded = decode_instants(bits, start, sample_count as int);
    assert(start == initial_channels(
        nch as nat,
        bytes_per_sample as int,
        prime_or_zero(qm_priming),
    ));
    let mut out: Vec<i32> = Vec::new();
    let mut scratch: Vec<i32> = Vec::new();
    let mut s: u32 = 0;
    let mut step: u64 = 0;
    let mut ok = true;
    assert(0 * nch == 0) by (nonlinear_arith);
    proof {
        reveal_with_fuel(instants_tape, 1);
    }
    while ok && s < sample_count
        invariant
            s <= sample_count,
            nch <= 0xFFFF,
            start.len() == nch,
            goal == instants_tape(t0, bits, start, sample_count as int, frame_idx),
            decoded == decode_instants(bits, start, sample_count as int),
            ok ==> {
                &&& step == s * nch
                &&& reader.wf()
                &&& chans@.len() == nch
                &&& forall|i: int| 0 <= i < nch ==> (#[trigger] chans@[i])@.wf()
                &&& decode_instants(bits, start, s as int) == Some(
                    (out@, channel_views(chans@), reader@),
                )
                &&& tape@ == instants_tape(t0, bits, start, s as int, frame_idx)
            },
            !ok ==> tape@ == goal && decoded is None,
        decreases
                sample_count - s + (if ok {
                    1int
                } else {
                    0int
                }),
    {
        assert(step <= 0xFFFF_FFFF * 0xFFFF && step + nch == (s + 1) * nch) by (nonlinear_arith)
            requires
                step == s * nch,
                s <= 0xFFFF_FFFF,
                nch <= 0xFFFF,
        ;
        proof {
            lemma_tape_step(t0, bits, start, s as int, frame_idx, step as int);
        }
        ok = decode_instant_traced(
            &mut reader,
            &mut chans,
            &mut scratch,
            &mut out,
            tape,
            frame_idx,
            s,
            step,
        );
        if ok {
            s = s + 1;
            step = step + nch as u64;
        } else {
            proof {
                lemma_instants_tape_stops(
                    t0,
                    bits,
                    start,
                    s + 1,
                    sample_count as int,
                    frame_idx,
                );
            }
        }
    }
    if ok {
        Some(out)
    } else {
        None
    }
}

/// Decode one frame and record it.
fn decode_frame_traced(
    header: &StreamHeader,
    descriptor: &FrameDescriptor,
    frame_bytes: &[u8],
    qm_priming: Option<[i32; 8]>,
    frame_idx: u32,
    tape: &mut TraceWriter,
) -> (r: Result<Vec<i32>>)
    requires
        crate::decoder::decodable(*header),
    ensures
        same_pcm(
            r,
            frame_result(*header, *descriptor, frame_bytes@, prime_or_zero(qm_priming)),
        ),
        final(tape)@ == frame_tape(
            old(tape)@,
            *header,
            *descriptor,
            frame_bytes@,
            prime_or_zero(qm_priming),
            frame_idx,
        ),
{
    proof {
        reveal(frame_tape);
    }
    let disk: usize = descriptor.disk_size as usize;
    if frame_bytes.len() < disk || disk < 4 {
        return Err(Error::Truncated);
    }
    let body_len: usize = disk - 4;
    let body = slice_subrange(frame_bytes, 0, body_len);
    assert(body@ =~= frame_bytes@.take(body_len as int));
    let stored_crc: u32 = read_le32(frame_bytes, body_len);
    tape.ev_frame_begin(frame_idx, descriptor.sample_count);
    let out = match decode_body_traced(
        body,
        header.channels as usize,
        header.bytes_per_sample(),
        qm_priming,
        descriptor.sample_count,
        frame_idx,
        tape,
    ) {
        Some(out) => out,
        None => {
            return Err(Error::Truncated);
        },
    };
    let computed_crc: u32 = crc32(body);
    let crc_ok = computed_crc == stored_crc;
    tape.ev_frame_end(frame_idx, computed_crc, stored_crc, crc_ok);
    if !crc_ok {
        return Err(Error::Crc32Mismatch { region: "frame" });
    }
    Ok(out)
}

/// Record everything known before the first frame.
fn emit_file_level_trace(dec: &Decoder<'_>, tape: &mut TraceWriter)
    requires
        dec@.wf(),
    ensures
        final(tape)@ == file_tape(old(tape)@, dec@, dec.header_crc),
{
    let h = dec.header;
    tape.ev_file_header(
        true,
        h.format as u32,
        h.channels as u32,
        h.bits_per_sample as u32,
        h.sample_rate,
        h.total_samples,
    );
    tape.ev_header_crc(true, dec.header_crc);
    let n: usize = dec.frames.len();
    tape.ev_seek_table_begin((n as u64 % 0x1_0000_0000) as u32);
    let ghost t1 = tape@;
    let mut i: usize = 0;
    while i < n
        invariant
            i <= n,
            n == dec.frames@.len(),
            tape@ == entries_tape(t1, dec@, i as int),
        decreases n - i,
    {
        let fd = dec.frames[i];
        tape.ev_seek_entry((i as u64 % 0x1_0000_0000) as u32, fd.disk_size, fd.file_offset);
        i = i + 1;
    }
    tape.ev_seek_table_end(dec.seek_table_crc_ok);
    let ghost t2 = tape@;
    let rice = RiceState::frame_init();
    let bytes_per_sample: usize = h.bytes_per_sample();
    let mut ch: u16 = 0;
    while ch < h.channels
        invariant
            ch <= h.channels,
            h.channels > 0 ==> 1 <= h.bits_per_sample <= 24,
            bytes_per_sample == byte_width(h.bits_per_sample),
            rice == RiceState::initial(),
            tape@ == inits_tape(t2, h, ch as int),
        decreases h.channels - ch,
    {
        let lms = LmsState::frame_init(bytes_per_sample);
        tape.ev_lms_init(-1, ch as u32, lms.shift, lms.round);
        tape.ev_rice_k_init(-1, ch as u32, rice.k0, rice.k1, rice.sum0, rice.sum1);
        ch = ch + 1;
    }
}

/// Decode a whole stream and record it: the samples are those of
/// `Decoder::decode_all`, and the tape runs up to the end or the first error.
pub fn decode_all_traced(dec: &Decoder<'_>, tape: &mut TraceWriter) -> (r: Result<Vec<i32>>)
    requires
        dec@.wf(),
    ensures
        same_pcm(r, dec@.all()),
        final(tape)@ == stream_tape(old(tape)@, dec@, dec.header_crc),
{
    emit_file_level_trace(dec, tape);
    let ghost t0 = tape@;
    let mut out: Vec<i32> = Vec::new();
    let mut i: usize = 0;
    assert(crate::decoder::prepend(Seq::empty(), dec@.run_from(0)) == dec@.all()) by {
        match dec@.run_from(0) {
            Ok(q) => {
                assert(Seq::<i32>::empty() + q =~= q);
            },
            Err(_) => {},
        }
    }
    let file_len: u64 = dec.bytes.len() as u64;
    while i < dec.frames.len()
        invariant
            i <= dec.frames@.len(),
            dec@.wf(),
            file_len == dec.bytes.len(),
            t0 == file_tape(old(tape)@, dec@, dec.header_crc),
            crate::decoder::prepend(out@, dec@.run_from(i as int)) == dec@.all(),
            frames_tape(tape@, dec@, i as int) == frames_tape(t0, dec@, 0),
        decreases dec.frames@.len() - i,
    {
        let frame = dec.frames[i];
        let end: u64 = match frame.file_offset.checked_add(frame.disk_size as u64) {
            Some(end) => end,
            None => {
                return Err(Error::Truncated);
            },
        };
        if end > file_len {
            return Err(Error::Truncated);
        }
        let frame_bytes = slice_subrange(dec.bytes, frame.file_offset as usize, end as usize);
        let frame_idx: u32 = (i as u64 % 0x1_0000_0000) as u32;
        match decode_frame_traced(
            &dec.header,
            &frame,
            frame_bytes,
            dec.qm_priming,
            frame_idx,
            tape,
        ) {
            Ok(pcm) => {
                let mut pcm = pcm;
                proof {
                    crate::decoder::lemma_prepend_assoc(out@, pcm@, dec@.run_from(i + 1));
                }
                out.append(&mut pcm);
            },
            Err(e) => {
                return Err(e);
            },
        }
        i = i + 1;
    }
    assert(out@ + Seq::<i32>::empty() =~= out@);
    Ok(out)
}

} // verus!
