//! The crate's error type.

use crate::text::{decimal, push_decimal};
use vstd::prelude::*;
use vstd::string::*;

verus! {

/// Errors produced by the TTA1 codec.
#[derive(Debug, Clone, PartialEq, Eq)]
pub enum Error {
    /// A read did not produce the requested number of bytes.
    Truncated,
    /// The stream-header magic was not the four bytes `'T','T','A','1'`.
    InvalidMagic,
    /// The 32-bit CRC32 stored alongside a header or frame did not match
    /// the recomputed value over the covered bytes.
    Crc32Mismatch {
        /// Which CRC region failed: `"header"` or `"frame"`.
        region: &'static str,
    },
    /// The stream header carried a `format` value outside the supported
    /// set: `1` is plain integer PCM, `2` is password-primed PCM.
    UnsupportedFormat(u16),
    /// `bits_per_sample` was outside the in-scope range `16..=24`.
    UnsupportedBitDepth(u16),
    /// `channels` was zero or above the six-channel cap.
    UnsupportedChannelCount(u16),
    /// `sample_rate` was zero or exceeded the ceiling of `0x7FFFFF` Hz.
    UnsupportedSampleRate(u32),
    /// The header carried `format == 2` but no password was supplied.
    PasswordRequired,
    /// The interleaved PCM buffer handed to the encoder had a length that
    /// was not a multiple of the channel count.
    InvalidSampleBuffer,
    /// A frame index was outside `0..frames.len()`.
    FrameIndexOutOfRange,
    /// A per-channel sample index was at or above the stream's
    /// `total_samples`, or a sample range was inverted.
    SampleIndexOutOfRange,
    /// A random-access seek was requested on a stream whose seek-table
    /// CRC32 did not validate. Such a stream still decodes linearly.
    SeekTableUnreliable,
    /// A frame descriptor carried a `disk_size` smaller than the four
    /// bytes of the trailing frame CRC32.
    InvalidFrameByteLength(u32),
    /// A frame descriptor carried a per-channel `sample_count` of zero.
    InvalidFrameSampleCount(u32),
    /// A seek point's `frame_index` was outside the stream's frames.
    InvalidFrameIndex(usize),
    /// A seek point's `sample_offset_in_frame` was at or above the regular
    /// per-frame sample count.
    InvalidInFrameSampleOffset(u32),
    /// An ID3v1 range was not exactly the last 128 bytes of the file. The
    /// payload is the `(start, len)` pair as supplied.
    InvalidId3v1Range(usize, usize),
    /// An APEv2 range was shorter than its 32-byte footer or did not lie
    /// within the file. The payload is the `(start, len)` pair as supplied.
    InvalidApeV2Range(usize, usize),
}

impl Error {
    /// The message for an error.
    pub open spec fn message_spec(self) -> Seq<char> {
        match self {
            Error::Truncated => "oxideav-tta: stream truncated"@,
            Error::InvalidMagic => "oxideav-tta: invalid TTA1 magic"@,
            Error::Crc32Mismatch { region } => "oxideav-tta: CRC32 mismatch in "@ + region@,
            Error::UnsupportedFormat(v) => "oxideav-tta: unsupported format ID "@ + decimal(
                v as nat,
            ),
            Error::UnsupportedBitDepth(v) => "oxideav-tta: unsupported bits_per_sample "@
                + decimal(v as nat),
            Error::UnsupportedChannelCount(v) => "oxideav-tta: unsupported channel count "@
                + decimal(v as nat),
            Error::UnsupportedSampleRate(v) => "oxideav-tta: sample rate "@ + decimal(v as nat)
                + " exceeds policy ceiling 0x7FFFFF"@,
            Error::PasswordRequired =>
                "oxideav-tta: format=2 (encrypted) stream requires a password"@,
            Error::InvalidSampleBuffer =>
                "oxideav-tta: interleaved PCM length is not a multiple of channel count"@,
            Error::FrameIndexOutOfRange => "oxideav-tta: frame index out of range"@,
            Error::SampleIndexOutOfRange => "oxideav-tta: sample index at or above total_samples"@,
            Error::SeekTableUnreliable =>
                "oxideav-tta: seek-table CRC32 failed; stream is decodable in linear mode only"@,
            Error::InvalidFrameByteLength(v) => "oxideav-tta: frame disk_size "@ + decimal(
                v as nat,
            ) + " is less than the 4-byte trailing CRC minimum"@,
            Error::InvalidFrameSampleCount(v) => "oxideav-tta: frame sample_count "@ + decimal(
                v as nat,
            ) + " is below the 1-sample-per-frame minimum"@,
            Error::InvalidFrameIndex(v) => "oxideav-tta: seek-point frame_index "@ + decimal(
                v as nat,
            ) + " is outside the 0..frame_count window"@,
            Error::InvalidInFrameSampleOffset(v) =>
                "oxideav-tta: seek-point sample_offset_in_frame "@ + decimal(v as nat)
                + " is at or above the regular per-frame sample count"@,
            Error::InvalidId3v1Range(start, len) => "oxideav-tta: ID3v1 trailer range (start="@
                + decimal(start as nat) + ", len="@ + decimal(len as nat)
                + ") does not satisfy the invariants (len must be exactly 128 and the range must be anchored at file end)"@,
            Error::InvalidApeV2Range(start, len) => "oxideav-tta: APEv2 trailer range (start="@
                + decimal(start as nat) + ", len="@ + decimal(len as nat)
                + ") does not satisfy the invariants (len must be at least the 32-byte footer minimum and the range must lie within the file)"@,
        }
    }

    /// The message for this error.
    pub fn message(&self) -> (r: String)
        ensures
            r@ == self.message_spec(),
    {
        match self {
            Error::Truncated => String::from_str("oxideav-tta: stream truncated"),
            Error::InvalidMagic => String::from_str("oxideav-tta: invalid TTA1 magic"),
            Error::Crc32Mismatch { region } => {
                String::from_str("oxideav-tta: CRC32 mismatch in ").concat(region)
            },
            Error::UnsupportedFormat(v) => numbered(
                "oxideav-tta: unsupported format ID ",
                *v as u64,
                None,
            ),
            Error::UnsupportedBitDepth(v) => numbered(
                "oxideav-tta: unsupported bits_per_sample ",
                *v as u64,
                None,
            ),
            Error::UnsupportedChannelCount(v) => numbered(
                "oxideav-tta: unsupported channel count ",
                *v as u64,
                None,
            ),
            Error::UnsupportedSampleRate(v) => numbered(
                "oxideav-tta: sample rate ",
                *v as u64,
                Some(" exceeds policy ceiling 0x7FFFFF"),
            ),
            Error::PasswordRequired => String::from_str(
                "oxideav-tta: format=2 (encrypted) stream requires a password",
            ),
            Error::InvalidSampleBuffer => String::from_str(
                "oxideav-tta: interleaved PCM length is not a multiple of channel count",
            ),
            Error::FrameIndexOutOfRange => String::from_str(
                "oxideav-tta: frame index out of range",
            ),
            Error::SampleIndexOutOfRange => String::from_str(
                "oxideav-tta: sample index at or above total_samples",
            ),
            Error::SeekTableUnreliable => String::from_str(
                "oxideav-tta: seek-table CRC32 failed; stream is decodable in linear mode only",
            ),
            Error::InvalidFrameByteLength(v) => numbered(
                "oxideav-tta: frame disk_size ",
                *v as u64,
                Some(" is less than the 4-byte trailing CRC minimum"),
            ),
            Error::InvalidFrameSampleCount(v) => numbered(
                "oxideav-tta: frame sample_count ",
                *v as u64,
                Some(" is below the 1-sample-per-frame minimum"),
            ),
            Error::InvalidFrameIndex(v) => numbered(
                "oxideav-tta: seek-point frame_index ",
                *v as u64,
                Some(" is outside the 0..frame_count window"),
            ),
            Error::InvalidInFrameSampleOffset(v) => numbered(
                "oxideav-tta: seek-point sample_offset_in_frame ",
                *v as u64,
                Some(" is at or above the regular per-frame sample count"),
            ),
            Error::InvalidId3v1Range(start, len) => ranged(
                "oxideav-tta: ID3v1 trailer range (start=",
                *start,
                *len,
                ") does not satisfy the invariants (len must be exactly 128 and the range must be anchored at file end)",
            ),
            Error::InvalidApeV2Range(start, len) => ranged(
                "oxideav-tta: APEv2 trailer range (start=",
                *start,
                *len,
                ") does not satisfy the invariants (len must be at least the 32-byte footer minimum and the range must lie within the file)",
            ),
        }
    }
}

/// `head`, a number, and `tail` if there is one.
fn numbered(head: &str, n: u64, tail: Option<&str>) -> (r: String)
    ensures
        match tail {
            Some(t) => r@ == head@ + decimal(n as nat) + t@,
            None => r@ == head@ + decimal(n as nat),
        },
{
    let mut out = String::from_str(head);
    push_decimal(&mut out, n);
    if let Some(t) = tail {
        out.append(t);
    }
    out
}

/// `head`, two numbers, and `tail`.
fn ranged(head: &str, start: usize, len: usize, tail: &str) -> (r: String)
    ensures
        r@ == head@ + decimal(start as nat) + ", len="@ + decimal(len as nat) + tail@,
{
    let mut out = String::from_str(head);
    push_decimal(&mut out, start as u64);
    out.append(", len=");
    push_decimal(&mut out, len as u64);
    out.append(tail);
    out
}

/// Crate-local `Result` alias.
pub type Result<T> = core::result::Result<T, Error>;

/// Every message about a number spells that number in decimal, whatever it
/// is.
pub proof fn law_messages_spell_numbers(v: u16, w: u32, start: usize, len: usize)
    ensures
        Error::UnsupportedFormat(v).message_spec() == "oxideav-tta: unsupported format ID "@
            + decimal(v as nat),
        Error::UnsupportedBitDepth(v).message_spec() == "oxideav-tta: unsupported bits_per_sample "@
            + decimal(v as nat),
        Error::UnsupportedChannelCount(v).message_spec()
            == "oxideav-tta: unsupported channel count "@ + decimal(v as nat),
        Error::UnsupportedSampleRate(w).message_spec() == "oxideav-tta: sample rate "@ + decimal(
            w as nat,
        ) + " exceeds policy ceiling 0x7FFFFF"@,
        Error::InvalidFrameByteLength(w).message_spec() == "oxideav-tta: frame disk_size "@
            + decimal(w as nat) + " is less than the 4-byte trailing CRC minimum"@,
        Error::InvalidFrameSampleCount(w).message_spec() == "oxideav-tta: frame sample_count "@
            + decimal(w as nat) + " is below the 1-sample-per-frame minimum"@,
        Error::InvalidFrameIndex(start).message_spec() == "oxideav-tta: seek-point frame_index "@
            + decimal(start as nat) + " is outside the 0..frame_count window"@,
        Error::InvalidInFrameSampleOffset(w).message_spec()
            == "oxideav-tta: seek-point sample_offset_in_frame "@ + decimal(w as nat)
            + " is at or above the regular per-frame sample count"@,
        Error::InvalidId3v1Range(start, len).message_spec()
            == "oxideav-tta: ID3v1 trailer range (start="@ + decimal(start as nat) + ", len="@
            + decimal(len as nat)
            + ") does not satisfy the invariants (len must be exactly 128 and the range must be anchored at file end)"@,
        Error::InvalidApeV2Range(start, len).message_spec()
            == "oxideav-tta: APEv2 trailer range (start="@ + decimal(start as nat) + ", len="@
            + decimal(len as nat)
            + ") does not satisfy the invariants (len must be at least the 32-byte footer minimum and the range must lie within the file)"@,
{
}

/// A CRC error names the part of the file that it is about.
pub proof fn law_crc_message_names_region(region: &'static str)
    ensures
        (Error::Crc32Mismatch { region }).message_spec() == "oxideav-tta: CRC32 mismatch in "@
            + region@,
{
}

} // verus!
