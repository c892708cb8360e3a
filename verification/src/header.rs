//! Stream header, seek table and ID3v2 prefix.
//!
//! A file is an optional ID3v2 tag, the 22-byte stream header (magic, five
//! little-endian fields, CRC-32 of the 18 bytes before it), the seek table
//! (one little-endian block size per frame, CRC-32 of the entries), and the
//! frame blocks back to back.

use crate::bytes::{le16, le16_bytes, le32, le32_bytes, read_le16, read_le32};
use crate::bytes::{lemma_le16_round_trip, lemma_le32_round_trip, push_le16, push_le32};
use crate::crc32::{crc32, crc32_spec, law_crc32_finds_changed_byte};
use crate::error::{Error, Result};
use crate::time::{duration_nanos, nanos_of, samples_to_duration};
use vstd::prelude::*;
use vstd::slice::slice_subrange;

verus! {

/// On-disk length of the stream header.
pub const HEADER_LEN: usize = 22;

/// Ceiling on the sample rate; the bits above it are reserved.
pub const MAX_SAMPLE_RATE: u32 = 0x007F_FFFF;

/// Largest supported channel count.
pub const MAX_NCH: u16 = 6;

/// Samples per channel in every frame but possibly the last: 256/245 of the
/// sample rate, rounded down and reduced to 32 bits.
pub open spec fn regular_samples(sample_rate: u32) -> u32 {
    ((sample_rate * 256 / 245) % 0x1_0000_0000) as u32
}

/// Bytes a sample of the given width takes up.
pub open spec fn byte_width(bits_per_sample: u16) -> int {
    (bits_per_sample + 7) / 8
}

/// Frame count and length of the last frame for a stream of `total` samples
/// cut into frames of `regular`.
pub open spec fn geometry(total: u32, regular: u32) -> (u32, u32) {
    if regular == 0 || total == 0 {
        (0, 0)
    } else if total % regular == 0 {
        (total / regular, regular)
    } else {
        ((total / regular + 1) as u32, total % regular)
    }
}

fn regular_of(sample_rate: u32) -> (r: u32)
    ensures
        r == regular_samples(sample_rate),
{
    ((sample_rate as u64) * 256 / 245 % 0x1_0000_0000) as u32
}

fn byte_width_of(bits_per_sample: u16) -> (r: usize)
    ensures
        r == byte_width(bits_per_sample),
{
    ((bits_per_sample as u32 + 7) / 8) as usize
}

fn geometry_of(total: u32, regular: u32) -> (r: (u32, u32))
    ensures
        r == geometry(total, regular),
{
    if regular == 0 || total == 0 {
        return (0, 0);
    }
    let raw: u32 = total % regular;
    if raw == 0 {
        (total / regular, regular)
    } else {
        proof {
            lemma_frame_count_fits(total, regular);
        }
        (total / regular + 1, raw)
    }
}

/// The frame count of a stream fits its 32 bits.
pub proof fn lemma_frame_count_fits(total: u32, regular: u32)
    requires
        regular > 0,
        total % regular != 0,
    ensures
        total / regular + 1 <= u32::MAX,
{
    let q = total / regular;
    assert(q < 0xFFFF_FFFF) by (nonlinear_arith)
        requires
            q == total / regular,
            total % regular != 0,
            regular > 0,
            total <= 0xFFFF_FFFF,
            regular == 1 ==> total % regular == 0,
    ;
}

/// The `format` field of the stream header.
#[derive(Debug, Clone, Copy, PartialEq, Eq, Hash, Structural)]
#[non_exhaustive]
pub enum Format {
    /// `1`: integer PCM.
    Simple,
    /// `2`: integer PCM with password-primed prediction.
    Encrypted,
}

impl Format {
    /// The on-wire value.
    pub open spec fn raw(self) -> u16 {
        match self {
            Format::Simple => 1,
            Format::Encrypted => 2,
        }
    }

    /// Lift an on-wire value.
    pub fn from_raw(value: u16) -> (r: Result<Self>)
        ensures
            match r {
                Ok(f) => f.raw() == value,
                Err(e) => value != 1 && value != 2 && e == Error::UnsupportedFormat(value),
            },
    {
        match value {
            1 => Ok(Format::Simple),
            2 => Ok(Format::Encrypted),
            other => Err(Error::UnsupportedFormat(other)),
        }
    }

    /// Back to the on-wire value.
    pub fn as_raw(&self) -> (r: u16)
        ensures
            r == self.raw(),
            r == 1 || r == 2,
    {
        match self {
            Format::Simple => 1,
            Format::Encrypted => 2,
        }
    }

    /// Whether decoding needs a password.
    pub fn requires_password(&self) -> (r: bool)
        ensures
            r == (self.raw() == 2),
    {
        matches!(self, Format::Encrypted)
    }
}

/// A sample width in `16..=24` bits.
#[derive(Debug, Clone, Copy, PartialEq, Eq, Hash)]
pub struct BitsPerSample(u16);

impl View for BitsPerSample {
    type V = u16;

    closed spec fn view(&self) -> u16 {
        self.0
    }
}

impl BitsPerSample {
    #[verifier::type_invariant]
    spec fn inv(self) -> bool {
        16 <= self.0 <= 24
    }

    /// Lift a raw width.
    pub fn from_raw(value: u16) -> (r: Result<Self>)
        ensures
            match r {
                Ok(b) => 16 <= value <= 24 && b@ == value,
                Err(e) => !(16 <= value <= 24) && e == Error::UnsupportedBitDepth(value),
            },
    {
        if value >= 16 && value <= 24 {
            Ok(BitsPerSample(value))
        } else {
            Err(Error::UnsupportedBitDepth(value))
        }
    }

    /// The width in bits.
    pub fn bits(&self) -> (r: u16)
        ensures
            r == self@,
            16 <= r <= 24,
    {
        proof {
            use_type_invariant(self);
        }
        self.0
    }

    /// The width in whole bytes: 2 or 3.
    pub fn byte_depth(&self) -> (r: usize)
        ensures
            r == byte_width(self@),
            r == 2 || r == 3,
    {
        proof {
            use_type_invariant(self);
        }
        byte_width_of(self.0)
    }
}

/// A channel count in `1..=6`.
#[derive(Debug, Clone, Copy, PartialEq, Eq, Hash)]
pub struct ChannelCount(u16);

impl View for ChannelCount {
    type V = u16;

    closed spec fn view(&self) -> u16 {
        self.0
    }
}

impl ChannelCount {
    #[verifier::type_invariant]
    spec fn inv(self) -> bool {
        1 <= self.0 <= MAX_NCH
    }

    /// Lift a raw count.
    pub fn from_raw(value: u16) -> (r: Result<Self>)
        ensures
            match r {
                Ok(c) => 1 <= value <= MAX_NCH && c@ == value,
                Err(e) => !(1 <= value <= MAX_NCH) && e == Error::UnsupportedChannelCount(value),
            },
    {
        if value >= 1 && value <= MAX_NCH {
            Ok(ChannelCount(value))
        } else {
            Err(Error::UnsupportedChannelCount(value))
        }
    }

    /// The number of channels.
    pub fn count(&self) -> (r: u16)
        ensures
            r == self@,
            1 <= r <= MAX_NCH,
    {
        proof {
            use_type_invariant(self);
        }
        self.0
    }

    /// Whether there is more than one channel.
    pub fn is_multichannel(&self) -> (r: bool)
        ensures
            r == (self@ >= 2),
    {
        self.0 >= 2
    }
}

/// A sample rate in `1..=0x7FFFFF` Hz.
#[derive(Debug, Clone, Copy, PartialEq, Eq, Hash)]
pub struct SampleRate(u32);

impl View for SampleRate {
    type V = u32;

    closed spec fn view(&self) -> u32 {
        self.0
    }
}

impl SampleRate {
    #[verifier::type_invariant]
    spec fn inv(self) -> bool {
        1 <= self.0 <= MAX_SAMPLE_RATE
    }

    /// Lift a raw rate.
    pub fn from_raw(value: u32) -> (r: Result<Self>)
        ensures
            match r {
                Ok(s) => 1 <= value <= MAX_SAMPLE_RATE && s@ == value,
                Err(e) => !(1 <= value <= MAX_SAMPLE_RATE) && e == Error::UnsupportedSampleRate(
                    value,
                ),
            },
    {
        if value == 0 || value > MAX_SAMPLE_RATE {
            Err(Error::UnsupportedSampleRate(value))
        } else {
            Ok(SampleRate(value))
        }
    }

    /// The rate in Hz.
    pub fn hz(&self) -> (r: u32)
        ensures
            r == self@,
            1 <= r <= MAX_SAMPLE_RATE,
    {
        proof {
            use_type_invariant(self);
        }
        self.0
    }

    /// Samples per channel in a regular frame.
    pub fn regular_frame_samples(&self) -> (r: u32)
        ensures
            r == regular_samples(self@),
            r == self@ * 256 / 245,
            r >= 1,
    {
        proof {
            use_type_invariant(self);
        }
        regular_of(self.0)
    }
}

/// A per-channel sample count; every value is valid, zero included.
#[derive(Debug, Clone, Copy, PartialEq, Eq, Hash)]
pub struct TotalSamples(u32);

impl View for TotalSamples {
    type V = u32;

    closed spec fn view(&self) -> u32 {
        self.0
    }
}

impl TotalSamples {
    /// Lift a raw count.
    pub fn from_raw(value: u32) -> (r: Self)
        ensures
            r@ == value,
    {
        TotalSamples(value)
    }

    /// The number of samples per channel.
    pub fn count(&self) -> (r: u32)
        ensures
            r == self@,
    {
        self.0
    }

    /// Whether the stream holds no samples.
    pub fn is_empty(&self) -> (r: bool)
        ensures
            r == (self@ == 0),
    {
        self.0 == 0
    }

    /// Playing time at a sample rate; zero for a rate of zero.
    pub fn duration_at(&self, sample_rate: u32) -> (r: core::time::Duration)
        ensures
            duration_nanos(r) == nanos_of(self@ as nat, sample_rate),
    {
        samples_to_duration(self.0 as u64, sample_rate)
    }
}

/// Parsed stream header.
#[derive(Debug, Clone, Copy, PartialEq, Eq, Structural)]
pub struct StreamHeader {
    /// Audio format: `1` plain, `2` password-primed.
    pub format: u16,
    /// Number of channels, `1..=6`.
    pub channels: u16,
    /// Sample width in bits, `16..=24`.
    pub bits_per_sample: u16,
    /// Sample rate in Hz, `1..=0x7FFFFF`.
    pub sample_rate: u32,
    /// Samples per channel in the whole stream.
    pub total_samples: u32,
}

impl StreamHeader {
    /// Whether every field is within the range a parsed header has.
    pub open spec fn in_scope(self) -> bool {
        &&& self.format == 1 || self.format == 2
        &&& 1 <= self.channels <= MAX_NCH
        &&& 16 <= self.bits_per_sample <= 24
        &&& 1 <= self.sample_rate <= MAX_SAMPLE_RATE
    }

    /// Frame count and length of the last frame.
    pub open spec fn geometry(self) -> (u32, u32) {
        geometry(self.total_samples, regular_samples(self.sample_rate))
    }

    /// Bytes per sample.
    pub fn bytes_per_sample(&self) -> (r: usize)
        ensures
            r == byte_width(self.bits_per_sample),
    {
        byte_width_of(self.bits_per_sample)
    }

    /// Samples per channel in a regular frame.
    pub fn regular_frame_samples(&self) -> (r: u32)
        ensures
            r == regular_samples(self.sample_rate),
    {
        regular_of(self.sample_rate)
    }

    /// Frame count and length of the last frame.
    pub fn frame_geometry(&self) -> (r: (u32, u32))
        ensures
            r == self.geometry(),
    {
        geometry_of(self.total_samples, regular_of(self.sample_rate))
    }

    /// The `format` field, validated.
    pub fn format_typed(&self) -> (r: Result<Format>)
        ensures
            match r {
                Ok(f) => f.raw() == self.format,
                Err(e) => self.format != 1 && self.format != 2 && e == Error::UnsupportedFormat(
                    self.format,
                ),
            },
    {
        Format::from_raw(self.format)
    }

    /// The `bits_per_sample` field, validated.
    pub fn bits_per_sample_typed(&self) -> (r: Result<BitsPerSample>)
        ensures
            match r {
                Ok(b) => 16 <= self.bits_per_sample <= 24 && b@ == self.bits_per_sample,
                Err(e) => !(16 <= self.bits_per_sample <= 24) && e == Error::UnsupportedBitDepth(
                    self.bits_per_sample,
                ),
            },
    {
        BitsPerSample::from_raw(self.bits_per_sample)
    }

    /// The `channels` field, validated.
    pub fn channel_count_typed(&self) -> (r: Result<ChannelCount>)
        ensures
            match r {
                Ok(c) => 1 <= self.channels <= MAX_NCH && c@ == self.channels,
                Err(e) => !(1 <= self.channels <= MAX_NCH) && e == Error::UnsupportedChannelCount(
                    self.channels,
                ),
            },
    {
        ChannelCount::from_raw(self.channels)
    }

    /// The `sample_rate` field, validated.
    pub fn sample_rate_typed(&self) -> (r: Result<SampleRate>)
        ensures
            match r {
                Ok(s) => 1 <= self.sample_rate <= MAX_SAMPLE_RATE && s@ == self.sample_rate,
                Err(e) => !(1 <= self.sample_rate <= MAX_SAMPLE_RATE) && e
                    == Error::UnsupportedSampleRate(self.sample_rate),
            },
    {
        SampleRate::from_raw(self.sample_rate)
    }

    /// The `total_samples` field; every value is valid.
    pub fn total_samples_typed(&self) -> (r: TotalSamples)
        ensures
            r@ == self.total_samples,
    {
        TotalSamples::from_raw(self.total_samples)
    }

    /// Playing time of the stream.
    pub fn total_duration(&self) -> (r: core::time::Duration)
        ensures
            duration_nanos(r) == nanos_of(self.total_samples as nat, self.sample_rate),
    {
        self.total_samples_typed().duration_at(self.sample_rate)
    }

    /// How the stream is cut into frames.
    pub fn frame_geometry_typed(&self) -> (r: FrameGeometry)
        ensures
            r@ == (self.total_samples, regular_samples(self.sample_rate)),
    {
        FrameGeometry {
            total_samples: self.total_samples,
            regular_frame_samples: regular_of(self.sample_rate),
        }
    }

    /// All fields validated at once, in the order the parser checks them.
    pub fn typed(&self) -> (r: Result<TypedStreamHeader>)
        ensures
            match r {
                Ok(t) => self.in_scope() && t@ == *self,
                Err(e) => field_error(*self) == Some(e),
            },
    {
        let format = match self.format_typed() {
            Ok(f) => f,
            Err(e) => {
                return Err(e);
            },
        };
        let channels = match self.channel_count_typed() {
            Ok(c) => c,
            Err(e) => {
                return Err(e);
            },
        };
        let bits_per_sample = match self.bits_per_sample_typed() {
            Ok(b) => b,
            Err(e) => {
                return Err(e);
            },
        };
        let sample_rate = match self.sample_rate_typed() {
            Ok(s) => s,
            Err(e) => {
                return Err(e);
            },
        };
        Ok(
            TypedStreamHeader {
                format,
                channels,
                bits_per_sample,
                sample_rate,
                total_samples: self.total_samples_typed(),
            },
        )
    }
}

/// The first field of `h` that is out of scope, as the error it raises.
pub open spec fn field_error(h: StreamHeader) -> Option<Error> {
    if h.format != 1 && h.format != 2 {
        Some(Error::UnsupportedFormat(h.format))
    } else if !(1 <= h.channels <= MAX_NCH) {
        Some(Error::UnsupportedChannelCount(h.channels))
    } else if !(16 <= h.bits_per_sample <= 24) {
        Some(Error::UnsupportedBitDepth(h.bits_per_sample))
    } else if !(1 <= h.sample_rate <= MAX_SAMPLE_RATE) {
        Some(Error::UnsupportedSampleRate(h.sample_rate))
    } else {
        None
    }
}

/// How a stream is cut into frames.
#[derive(Debug, Clone, Copy, PartialEq, Eq, Hash)]
pub struct FrameGeometry {
    total_samples: u32,
    regular_frame_samples: u32,
}

impl View for FrameGeometry {
    type V = (u32, u32);

    /// Total samples and regular frame length.
    closed spec fn view(&self) -> (u32, u32) {
        (self.total_samples, self.regular_frame_samples)
    }
}

impl FrameGeometry {
    /// Number of frames.
    pub fn frame_count(&self) -> (r: u32)
        ensures
            r == geometry(self@.0, self@.1).0,
    {
        geometry_of(self.total_samples, self.regular_frame_samples).0
    }

    /// Samples per channel in the last frame; zero without frames.
    pub fn last_frame_samples(&self) -> (r: u32)
        ensures
            r == geometry(self@.0, self@.1).1,
    {
        geometry_of(self.total_samples, self.regular_frame_samples).1
    }

    /// Samples per channel in a regular frame.
    pub fn regular_frame_samples(&self) -> (r: u32)
        ensures
            r == self@.1,
    {
        self.regular_frame_samples
    }

    /// Samples per channel in the whole stream.
    pub fn total_samples(&self) -> (r: u32)
        ensures
            r == self@.0,
    {
        self.total_samples
    }

    /// On-disk size of the seek table: four bytes per frame and the CRC.
    /// The table must fit the address space.
    pub fn seek_table_size_bytes(&self) -> (r: usize)
        requires
            geometry(self@.0, self@.1).0 * 4 + 4 <= usize::MAX,
        ensures
            r == geometry(self@.0, self@.1).0 * 4 + 4,
    {
        self.frame_count() as usize * 4 + 4
    }

    /// Whether the last frame is as long as the others.
    pub fn is_exact_multiple(&self) -> (r: bool)
        ensures
            r == (geometry(self@.0, self@.1).0 > 0 && self@.0 % self@.1 == 0),
    {
        self.frame_count() > 0 && self.total_samples % self.regular_frame_samples == 0
    }

    /// Samples per channel in frame `index`; `None` past the last frame.
    pub fn frame_samples_at(&self, index: u32) -> (r: Option<u32>)
        ensures
            r == if index >= geometry(self@.0, self@.1).0 {
                None
            } else if index + 1 == geometry(self@.0, self@.1).0 {
                Some(geometry(self@.0, self@.1).1)
            } else {
                Some(self@.1)
            },
    {
        let (count, last) = geometry_of(self.total_samples, self.regular_frame_samples);
        if index >= count {
            None
        } else if index + 1 == count {
            Some(last)
        } else {
            Some(self.regular_frame_samples)
        }
    }
}

/// A header whose fields have all been validated.
#[derive(Debug, Clone, Copy, PartialEq, Eq, Hash)]
pub struct TypedStreamHeader {
    format: Format,
    channels: ChannelCount,
    bits_per_sample: BitsPerSample,
    sample_rate: SampleRate,
    total_samples: TotalSamples,
}

impl View for TypedStreamHeader {
    type V = StreamHeader;

    /// The raw header it was lifted from.
    closed spec fn view(&self) -> StreamHeader {
        StreamHeader {
            format: self.format.raw(),
            channels: self.channels@,
            bits_per_sample: self.bits_per_sample@,
            sample_rate: self.sample_rate@,
            total_samples: self.total_samples@,
        }
    }
}

impl TypedStreamHeader {
    /// The audio format.
    pub fn format(&self) -> (r: Format)
        ensures
            r.raw() == self@.format,
    {
        self.format
    }

    /// The channel count.
    pub fn channels(&self) -> (r: ChannelCount)
        ensures
            r@ == self@.channels,
    {
        self.channels
    }

    /// The sample width.
    pub fn bits_per_sample(&self) -> (r: BitsPerSample)
        ensures
            r@ == self@.bits_per_sample,
    {
        self.bits_per_sample
    }

    /// The sample rate.
    pub fn sample_rate(&self) -> (r: SampleRate)
        ensures
            r@ == self@.sample_rate,
    {
        self.sample_rate
    }

    /// The per-channel sample count.
    pub fn total_samples(&self) -> (r: TotalSamples)
        ensures
            r@ == self@.total_samples,
    {
        self.total_samples
    }

    /// Whether decoding needs a password.
    pub fn requires_password(&self) -> (r: bool)
        ensures
            r == (self@.format == 2),
    {
        self.format.requires_password()
    }

    /// Bytes per sample: 2 or 3.
    pub fn byte_depth(&self) -> (r: usize)
        ensures
            r == byte_width(self@.bits_per_sample),
            r == 2 || r == 3,
    {
        self.bits_per_sample.byte_depth()
    }

    /// Samples per channel in a regular frame.
    pub fn regular_frame_samples(&self) -> (r: u32)
        ensures
            r == regular_samples(self@.sample_rate),
    {
        self.sample_rate.regular_frame_samples()
    }

    /// How the stream is cut into frames.
    pub fn frame_geometry(&self) -> (r: FrameGeometry)
        ensures
            r@ == (self@.total_samples, regular_samples(self@.sample_rate)),
    {
        self.to_header().frame_geometry_typed()
    }

    /// Playing time of the stream.
    pub fn total_duration(&self) -> (r: core::time::Duration)
        ensures
            duration_nanos(r) == nanos_of(self@.total_samples as nat, self@.sample_rate),
    {
        self.total_samples.duration_at(self.sample_rate.hz())
    }

    /// Size in bytes of the decoded stream, packed.
    pub fn pcm_byte_len(&self) -> (r: u64)
        ensures
            r == self@.total_samples * self@.channels * byte_width(self@.bits_per_sample),
    {
        let total: u64 = self.total_samples.count() as u64;
        let channels: u64 = self.channels.count() as u64;
        let depth: u64 = self.bits_per_sample.byte_depth() as u64;
        assert(total * channels <= 0xFFFF_FFFF * 6) by (nonlinear_arith)
            requires
                total <= 0xFFFF_FFFF,
                channels <= 6,
        ;
        let entries: u64 = total * channels;
        assert(entries * depth <= 0xFFFF_FFFF * 6 * 3) by (nonlinear_arith)
            requires
                entries <= 0xFFFF_FFFF * 6,
                depth <= 3,
        ;
        entries * depth
    }

    /// Back to the raw header.
    pub fn to_header(&self) -> (r: StreamHeader)
        ensures
            r == self@,
            r.in_scope(),
    {
        StreamHeader {
            format: self.format.as_raw(),
            channels: self.channels.count(),
            bits_per_sample: self.bits_per_sample.bits(),
            sample_rate: self.sample_rate.hz(),
            total_samples: self.total_samples.count(),
        }
    }
}

/// On-disk size of a frame block; at least the four CRC bytes.
#[derive(Debug, Clone, Copy, PartialEq, Eq, Hash)]
pub struct FrameByteLength(u32);

impl View for FrameByteLength {
    type V = u32;

    closed spec fn view(&self) -> u32 {
        self.0
    }
}

impl FrameByteLength {
    #[verifier::type_invariant]
    spec fn inv(self) -> bool {
        self.0 >= 4
    }

    /// Lift a raw size.
    pub fn from_raw(value: u32) -> (r: Result<Self>)
        ensures
            match r {
                Ok(l) => value >= 4 && l@ == value,
                Err(e) => value < 4 && e == Error::InvalidFrameByteLength(value),
            },
    {
        if value < 4 {
            Err(Error::InvalidFrameByteLength(value))
        } else {
            Ok(FrameByteLength(value))
        }
    }

    /// The whole block, CRC included.
    pub fn total_size(&self) -> (r: u32)
        ensures
            r == self@,
            r >= 4,
    {
        proof {
            use_type_invariant(self);
        }
        self.0
    }

    /// The body alone.
    pub fn body_size(&self) -> (r: u32)
        ensures
            r == self@ - 4,
    {
        proof {
            use_type_invariant(self);
        }
        self.0 - 4
    }
}

/// A frame's per-channel sample count; at least one.
#[derive(Debug, Clone, Copy, PartialEq, Eq, Hash)]
pub struct FrameSampleCount(u32);

impl View for FrameSampleCount {
    type V = u32;

    closed spec fn view(&self) -> u32 {
        self.0
    }
}

impl FrameSampleCount {
    #[verifier::type_invariant]
    spec fn inv(self) -> bool {
        self.0 >= 1
    }

    /// Lift a raw count.
    pub fn from_raw(value: u32) -> (r: Result<Self>)
        ensures
            match r {
                Ok(c) => value >= 1 && c@ == value,
                Err(e) => value == 0 && e == Error::InvalidFrameSampleCount(value),
            },
    {
        if value == 0 {
            Err(Error::InvalidFrameSampleCount(value))
        } else {
            Ok(FrameSampleCount(value))
        }
    }

    /// Samples per channel.
    pub fn count(&self) -> (r: u32)
        ensures
            r == self@,
            r >= 1,
    {
        proof {
            use_type_invariant(self);
        }
        self.0
    }

    /// Whether a frame of this length fits the regular length.
    pub fn is_within_regular_bound(&self, regular_frame_samples: u32) -> (r: bool)
        ensures
            r == (self@ <= regular_frame_samples),
    {
        self.0 <= regular_frame_samples
    }
}

/// One frame's location in the file.
#[derive(Debug, Clone, Copy, PartialEq, Eq, Structural)]
pub struct FrameDescriptor {
    /// Offset of the block's first byte in the file.
    pub file_offset: u64,
    /// On-disk size of the block, its four CRC bytes included.
    pub disk_size: u32,
    /// Samples per channel in the frame.
    pub sample_count: u32,
    /// `true` for the final frame.
    pub is_last: bool,
}

impl FrameDescriptor {
    /// Size of the body, without the CRC; zero where the block is too small.
    pub fn body_size(&self) -> (r: u32)
        ensures
            r == if self.disk_size < 4 {
                0
            } else {
                self.disk_size - 4
            },
    {
        self.disk_size.saturating_sub(4)
    }

    /// The `disk_size` field, validated.
    pub fn disk_size_typed(&self) -> (r: Result<FrameByteLength>)
        ensures
            match r {
                Ok(l) => self.disk_size >= 4 && l@ == self.disk_size,
                Err(e) => self.disk_size < 4 && e == Error::InvalidFrameByteLength(self.disk_size),
            },
    {
        FrameByteLength::from_raw(self.disk_size)
    }

    /// The `sample_count` field, validated.
    pub fn sample_count_typed(&self) -> (r: Result<FrameSampleCount>)
        ensures
            match r {
                Ok(c) => self.sample_count >= 1 && c@ == self.sample_count,
                Err(e) => self.sample_count == 0 && e == Error::InvalidFrameSampleCount(0),
            },
    {
        FrameSampleCount::from_raw(self.sample_count)
    }
}

/// Whether the bytes start with an ID3v2 header.
pub open spec fn has_id3v2(buf: Seq<u8>) -> bool {
    &&& buf.len() >= 10
    &&& buf[0] == 0x49
    &&& buf[1] == 0x44
    &&& buf[2] == 0x33
}

/// The four size bytes, seven bits each, highest first.
pub open spec fn syncsafe(buf: Seq<u8>) -> int {
    (buf[6] % 128) * 0x20_0000 + (buf[7] % 128) * 0x4000 + (buf[8] % 128) * 0x80 + (buf[9] % 128)
}

/// The length an ID3v2 tag declares: header, content, and footer if flagged.
pub open spec fn id3v2_len(buf: Seq<u8>) -> int {
    10 + syncsafe(buf) + if buf[5] & 0x10 != 0 {
        10int
    } else {
        0int
    }
}

/// The offset of the first byte after an ID3v2 tag; zero without one.
pub open spec fn id3v2_skip(buf: Seq<u8>) -> core::result::Result<int, Error> {
    if !has_id3v2(buf) {
        Ok(0)
    } else if id3v2_len(buf) > buf.len() {
        Err(Error::Truncated)
    } else {
        Ok(id3v2_len(buf))
    }
}

/// Find the end of an ID3v2 tag at the start of `buf`.
pub fn skip_id3v2_prefix(buf: &[u8]) -> (r: Result<usize>)
    ensures
        match r {
            Ok(n) => id3v2_skip(buf@) == Ok::<int, Error>(n as int) && n <= buf@.len() && n
                <= 0x1000_0013,
            Err(e) => id3v2_skip(buf@) == Err::<int, Error>(e),
        },
{
    if buf.len() < 10 || buf[0] != 0x49 || buf[1] != 0x44 || buf[2] != 0x33 {
        return Ok(0);
    }
    let size: u32 = (buf[6] % 128) as u32 * 0x20_0000 + (buf[7] % 128) as u32 * 0x4000 + (buf[8]
        % 128) as u32 * 0x80 + (buf[9] % 128) as u32;
    let mut total: usize = 10 + size as usize;
    if buf[5] & 0x10 != 0 {
        total = total + 10;
    }
    if total > buf.len() {
        return Err(Error::Truncated);
    }
    Ok(total)
}

/// The fields of a header, unchecked.
pub open spec fn header_fields(buf: Seq<u8>) -> StreamHeader {
    StreamHeader {
        format: le16(buf, 4),
        channels: le16(buf, 6),
        bits_per_sample: le16(buf, 8),
        sample_rate: le32(buf, 10),
        total_samples: le32(buf, 14),
    }
}

/// Parse a header of either format: size, magic, CRC, then each field.
pub open spec fn parse_header(buf: Seq<u8>) -> core::result::Result<StreamHeader, Error> {
    if buf.len() < HEADER_LEN {
        Err(Error::Truncated)
    } else if buf.take(4) != seq![0x54u8, 0x54u8, 0x41u8, 0x31u8] {
        Err(Error::InvalidMagic)
    } else if le32(buf, 18) != crc32_spec(buf.take(18)) {
        Err(Error::Crc32Mismatch { region: "header" })
    } else {
        match field_error(header_fields(buf)) {
            Some(e) => Err(e),
            None => Ok(header_fields(buf)),
        }
    }
}

/// Parse a header at the start of `buf`, plain format only. The second part
/// of the result is the header's length.
pub fn parse_stream_header(buf: &[u8]) -> (r: Result<(StreamHeader, usize)>)
    ensures
        match r {
            Ok((h, n)) => parse_header(buf@) == Ok::<StreamHeader, Error>(h) && h.format == 1 && n
                == HEADER_LEN,
            Err(e) => match parse_header(buf@) {
                Ok(h) => h.format != 1 && e == Error::UnsupportedFormat(h.format),
                Err(e2) => e == e2,
            },
        },
{
    match parse_stream_header_with_crc(buf) {
        Ok((header, n, _)) => {
            if header.format != 1 {
                Err(Error::UnsupportedFormat(header.format))
            } else {
                Ok((header, n))
            }
        },
        Err(e) => Err(e),
    }
}

/// Parse a header at the start of `buf`, either format.
pub fn parse_stream_header_any_format(buf: &[u8]) -> (r: Result<(StreamHeader, usize)>)
    ensures
        match r {
            Ok((h, n)) => parse_header(buf@) == Ok::<StreamHeader, Error>(h) && n == HEADER_LEN,
            Err(e) => parse_header(buf@) == Err::<StreamHeader, Error>(e),
        },
{
    match parse_stream_header_with_crc(buf) {
        Ok((header, n, _)) => Ok((header, n)),
        Err(e) => Err(e),
    }
}

/// Parse a header at the start of `buf`, either format, and hand out its
/// CRC as well.
pub fn parse_stream_header_with_crc(buf: &[u8]) -> (r: Result<(StreamHeader, usize, u32)>)
    ensures
        match r {
            Ok((h, n, crc)) => {
                &&& parse_header(buf@) == Ok::<StreamHeader, Error>(h)
                &&& h.in_scope()
                &&& n == HEADER_LEN
                &&& n <= buf@.len()
                &&& crc == crc32_spec(buf@.take(18))
            },
            Err(e) => parse_header(buf@) == Err::<StreamHeader, Error>(e),
        },
{
    if buf.len() < HEADER_LEN {
        return Err(Error::Truncated);
    }
    proof {
        let m = buf@.take(4);
        assert(m == seq![0x54u8, 0x54u8, 0x41u8, 0x31u8] <==> (m[0] == 0x54 && m[1] == 0x54 && m[2]
            == 0x41 && m[3] == 0x31)) by {
            if m[0] == 0x54 && m[1] == 0x54 && m[2] == 0x41 && m[3] == 0x31 {
                assert(m =~= seq![0x54u8, 0x54u8, 0x41u8, 0x31u8]);
            }
        }
    }
    if buf[0] != 0x54 || buf[1] != 0x54 || buf[2] != 0x41 || buf[3] != 0x31 {
        return Err(Error::InvalidMagic);
    }
    let computed: u32 = crc32(slice_subrange(buf, 0, 18));
    if read_le32(buf, 18) != computed {
        return Err(Error::Crc32Mismatch { region: "header" });
    }
    let header = StreamHeader {
        format: read_le16(buf, 4),
        channels: read_le16(buf, 6),
        bits_per_sample: read_le16(buf, 8),
        sample_rate: read_le32(buf, 10),
        total_samples: read_le32(buf, 14),
    };
    if header.format != 1 && header.format != 2 {
        return Err(Error::UnsupportedFormat(header.format));
    }
    if header.channels == 0 || header.channels > MAX_NCH {
        return Err(Error::UnsupportedChannelCount(header.channels));
    }
    if header.bits_per_sample < 16 || header.bits_per_sample > 24 {
        return Err(Error::UnsupportedBitDepth(header.bits_per_sample));
    }
    if header.sample_rate == 0 || header.sample_rate > MAX_SAMPLE_RATE {
        return Err(Error::UnsupportedSampleRate(header.sample_rate));
    }
    Ok((header, HEADER_LEN, computed))
}

/// The 18 header bytes the CRC covers.
pub open spec fn header_prefix(h: StreamHeader) -> Seq<u8> {
    seq![0x54u8, 0x54u8, 0x41u8, 0x31u8] + le16_bytes(h.format) + le16_bytes(h.channels)
        + le16_bytes(h.bits_per_sample) + le32_bytes(h.sample_rate) + le32_bytes(h.total_samples)
}

/// The 22 bytes of a stream header.
pub open spec fn header_bytes(h: StreamHeader) -> Seq<u8> {
    header_prefix(h) + le32_bytes(crc32_spec(header_prefix(h)))
}

/// Append the stream header to `out`.
pub fn push_header(out: &mut Vec<u8>, h: &StreamHeader)
    ensures
        final(out)@ == old(out)@ + header_bytes(*h),
{
    let mut head: Vec<u8> = Vec::new();
    head.push(0x54);
    head.push(0x54);
    head.push(0x41);
    head.push(0x31);
    assert(head@ =~= seq![0x54u8, 0x54u8, 0x41u8, 0x31u8]);
    push_le16(&mut head, h.format);
    push_le16(&mut head, h.channels);
    push_le16(&mut head, h.bits_per_sample);
    push_le32(&mut head, h.sample_rate);
    push_le32(&mut head, h.total_samples);
    let crc: u32 = crc32(head.as_slice());
    push_le32(&mut head, crc);
    out.append(&mut head);
}

/// Parsing reads back exactly the header that was written, whatever follows
/// it in the buffer.
pub proof fn law_header_round_trip(h: StreamHeader, rest: Seq<u8>)
    requires
        h.in_scope(),
    ensures
        parse_header(header_bytes(h) + rest) == Ok::<StreamHeader, Error>(h),
        header_bytes(h).len() == HEADER_LEN,
{
    let prefix = header_prefix(h);
    let crc = crc32_spec(prefix);
    let buf = header_bytes(h) + rest;
    lemma_prefix_layout(h);
    assert(buf.take(18) =~= prefix);
    assert(buf.take(4) =~= prefix.subrange(0, 4));
    assert(buf.subrange(18, 22) =~= le32_bytes(crc));
    assert(buf.subrange(4, 6) =~= prefix.subrange(4, 6));
    assert(buf.subrange(6, 8) =~= prefix.subrange(6, 8));
    assert(buf.subrange(8, 10) =~= prefix.subrange(8, 10));
    assert(buf.subrange(10, 14) =~= prefix.subrange(10, 14));
    assert(buf.subrange(14, 18) =~= prefix.subrange(14, 18));
    lemma_le16_round_trip(buf, 4, h.format);
    lemma_le16_round_trip(buf, 6, h.channels);
    lemma_le16_round_trip(buf, 8, h.bits_per_sample);
    lemma_le32_round_trip(buf, 10, h.sample_rate);
    lemma_le32_round_trip(buf, 14, h.total_samples);
    lemma_le32_round_trip(buf, 18, crc);
}

/// No damage to a single byte of a valid header goes unnoticed: whichever of
/// the 22 bytes is changed, in one bit or several, the header is refused, for
/// its magic or for its CRC.
pub proof fn law_header_damage_is_refused(buf: Seq<u8>, i: int, b: u8)
    requires
        parse_header(buf) is Ok,
        0 <= i < HEADER_LEN,
        b != buf[i],
    ensures
        parse_header(buf.update(i, b)) == if i < 4 {
            Err::<StreamHeader, Error>(Error::InvalidMagic)
        } else {
            Err::<StreamHeader, Error>(Error::Crc32Mismatch { region: "header" })
        },
{
    let bad = buf.update(i, b);
    if i < 4 {
        assert(bad.take(4)[i] == b);
        assert(buf.take(4)[i] == buf[i]);
    } else {
        assert(bad.take(4) =~= buf.take(4));
        if i < 18 {
            assert(bad.take(18) =~= buf.take(18).update(i, b));
            law_crc32_finds_changed_byte(buf.take(18), i, b);
        } else {
            assert(bad.take(18) =~= buf.take(18));
        }
    }
}

/// Every flip of a single bit of a valid header is refused.
pub proof fn law_header_bit_flip_is_refused(buf: Seq<u8>, i: int, bit: u8)
    requires
        parse_header(buf) is Ok,
        0 <= i < HEADER_LEN,
        bit < 8,
    ensures
        parse_header(buf.update(i, buf[i] ^ (1u8 << bit))) is Err,
{
    let x = buf[i];
    assert(x ^ (1u8 << bit) != x) by (bit_vector)
        requires
            bit < 8,
    ;
    law_header_damage_is_refused(buf, i, x ^ (1u8 << bit));
}

/// Where each field sits in the 18 bytes.
pub proof fn lemma_prefix_layout(h: StreamHeader)
    ensures
        header_prefix(h).len() == 18,
        header_prefix(h).subrange(0, 4) == seq![0x54u8, 0x54u8, 0x41u8, 0x31u8],
        header_prefix(h).subrange(4, 6) == le16_bytes(h.format),
        header_prefix(h).subrange(6, 8) == le16_bytes(h.channels),
        header_prefix(h).subrange(8, 10) == le16_bytes(h.bits_per_sample),
        header_prefix(h).subrange(10, 14) == le32_bytes(h.sample_rate),
        header_prefix(h).subrange(14, 18) == le32_bytes(h.total_samples),
{
    let p = header_prefix(h);
    let p0 = seq![0x54u8, 0x54u8, 0x41u8, 0x31u8];
    let f1 = le16_bytes(h.format);
    let f2 = le16_bytes(h.channels);
    let f3 = le16_bytes(h.bits_per_sample);
    let f4 = le32_bytes(h.sample_rate);
    let f5 = le32_bytes(h.total_samples);
    assert(f1.len() == 2 && f2.len() == 2 && f3.len() == 2 && f4.len() == 4 && f5.len() == 4);
    lemma_piece(p0, f1);
    lemma_piece(p0 + f1, f2);
    lemma_piece(p0 + f1 + f2, f3);
    lemma_piece(p0 + f1 + f2 + f3, f4);
    lemma_piece(p0 + f1 + f2 + f3 + f4, f5);
    lemma_still(p0, f1, 0, 4);
    assert(p0.subrange(0, 4) =~= p0);
    lemma_still(p0 + f1, f2, 0, 4);
    lemma_still(p0 + f1, f2, 4, 6);
    lemma_still(p0 + f1 + f2, f3, 0, 4);
    lemma_still(p0 + f1 + f2, f3, 4, 6);
    lemma_still(p0 + f1 + f2, f3, 6, 8);
    lemma_still(p0 + f1 + f2 + f3, f4, 0, 4);
    lemma_still(p0 + f1 + f2 + f3, f4, 4, 6);
    lemma_still(p0 + f1 + f2 + f3, f4, 6, 8);
    lemma_still(p0 + f1 + f2 + f3, f4, 8, 10);
    lemma_still(p0 + f1 + f2 + f3 + f4, f5, 0, 4);
    lemma_still(p0 + f1 + f2 + f3 + f4, f5, 4, 6);
    lemma_still(p0 + f1 + f2 + f3 + f4, f5, 6, 8);
    lemma_still(p0 + f1 + f2 + f3 + f4, f5, 8, 10);
    lemma_still(p0 + f1 + f2 + f3 + f4, f5, 10, 14);
}

proof fn lemma_piece(a: Seq<u8>, b: Seq<u8>)
    ensures
        (a + b).subrange(a.len() as int, (a.len() + b.len()) as int) == b,
{
    assert((a + b).subrange(a.len() as int, (a.len() + b.len()) as int) =~= b);
}

proof fn lemma_still(a: Seq<u8>, b: Seq<u8>, from: int, to: int)
    requires
        0 <= from <= to <= a.len(),
    ensures
        (a + b).subrange(from, to) == a.subrange(from, to),
{
    assert((a + b).subrange(from, to) =~= a.subrange(from, to));
}

/// A stream that has samples and a regular frame length has frames.
pub proof fn lemma_frames_exist(total: u32, regular: u32)
    requires
        regular > 0,
        total > 0,
    ensures
        geometry(total, regular).0 > 0,
{
    if total % regular == 0 {
        assert(total / regular > 0) by (nonlinear_arith)
            requires
                total % regular == 0,
                total > 0,
                regular > 0,
        ;
    } else {
        lemma_frame_count_fits(total, regular);
    }
}

/// A parsed seek table.
#[derive(Debug, Clone)]
pub struct SeekTable {
    /// One descriptor per frame, in file order.
    pub frames: Vec<FrameDescriptor>,
    /// Whether the table's CRC matched. A mismatch is no error: the stream
    /// can still be decoded from start to end.
    pub crc_ok: bool,
}

/// Where frame `i` starts, given that frame 0 starts at `start`.
pub open spec fn frame_offset(buf: Seq<u8>, start: u64, i: int) -> u64
    decreases i,
{
    if i <= 0 {
        start
    } else {
        frame_offset(buf, start, i - 1).saturating_add(le32(buf, 4 * (i - 1)) as u64)
    }
}

/// The descriptor of frame `i`.
pub open spec fn frame_at(buf: Seq<u8>, h: StreamHeader, start: u64, i: int) -> FrameDescriptor {
    let is_last = i + 1 == h.geometry().0;
    FrameDescriptor {
        file_offset: frame_offset(buf, start, i),
        disk_size: le32(buf, 4 * i),
        sample_count: if is_last {
            h.geometry().1
        } else {
            regular_samples(h.sample_rate)
        },
        is_last,
    }
}

/// All frames a seek table describes.
pub open spec fn seek_frames(buf: Seq<u8>, h: StreamHeader, start: u64) -> Seq<FrameDescriptor> {
    Seq::new(h.geometry().0 as nat, |i: int| frame_at(buf, h, start, i))
}

/// Size of the seek table of a stream.
pub open spec fn seek_table_len(h: StreamHeader) -> int {
    h.geometry().0 * 4 + 4
}

/// Whether the seek table's CRC matches its entries.
pub open spec fn seek_crc_ok(buf: Seq<u8>, h: StreamHeader) -> bool {
    crc32_spec(buf.take(h.geometry().0 * 4)) == le32(buf, h.geometry().0 * 4)
}

/// Parse the seek table at the start of `buf`; the first frame block starts
/// at `frame_data_start` in the file. The second part of the result is the
/// table's length.
pub fn parse_seek_table(buf: &[u8], header: &StreamHeader, frame_data_start: u64) -> (r: Result<
    (SeekTable, usize),
>)
    ensures
        match r {
            Ok((table, n)) => {
                &&& seek_table_len(*header) <= buf@.len()
                &&& table.frames@ == seek_frames(buf@, *header, frame_data_start)
                &&& table.crc_ok == seek_crc_ok(buf@, *header)
                &&& n == seek_table_len(*header)
            },
            Err(e) => e == Error::Truncated && seek_table_len(*header) > buf@.len(),
        },
{
    let (frame_count, last_samples) = header.frame_geometry();
    let wanted: u64 = frame_count as u64 * 4 + 4;
    if (buf.len() as u64) < wanted {
        return Err(Error::Truncated);
    }
    let entries_bytes: usize = frame_count as usize * 4;
    let computed: u32 = crc32(slice_subrange(buf, 0, entries_bytes));
    let crc_ok = computed == read_le32(buf, entries_bytes);
    let regular: u32 = header.regular_frame_samples();
    let mut frames: Vec<FrameDescriptor> = Vec::new();
    let mut offset: u64 = frame_data_start;
    let mut i: u32 = 0;
    while i < frame_count
        invariant
            i <= frame_count,
            (frame_count, last_samples) == header.geometry(),
            regular == regular_samples(header.sample_rate),
            frame_count * 4 + 4 <= buf.len(),
            offset == frame_offset(buf@, frame_data_start, i as int),
            frames@.len() == i,
            forall|j: int|
                0 <= j < i ==> frames@[j] == frame_at(buf@, *header, frame_data_start, j),
        decreases frame_count - i,
    {
        let disk_size: u32 = read_le32(buf, i as usize * 4);
        let is_last = i + 1 == frame_count;
        let sample_count: u32 = if is_last {
            last_samples
        } else {
            regular
        };
        frames.push(FrameDescriptor { file_offset: offset, disk_size, sample_count, is_last });
        offset = offset.saturating_add(disk_size as u64);
        i = i + 1;
    }
    assert(frames@ =~= seek_frames(buf@, *header, frame_data_start));
    Ok((SeekTable { frames, crc_ok }, entries_bytes + 4))
}

/// How much an ID3v2 tag in front takes up: nothing where the first ten bytes
/// do not start with `ID3`; otherwise ten bytes, the number `n` that the low
/// seven bits of bytes 6 to 9 spell, highest first, and ten more where the
/// footer bit of byte 5 is set. Where that is more than there is, the tag is
/// cut short.
#[verifier::rlimit(60)]
pub proof fn law_id3v2_size_is_28_bits(buf: Seq<u8>, n: int)
    requires
        0 <= n < 0x1000_0000,
        buf.len() >= 10 ==> buf[6] % 128 == n / 0x20_0000 && buf[7] % 128 == n / 0x4000 % 128
            && buf[8] % 128 == n / 0x80 % 128 && buf[9] % 128 == n % 128,
    ensures
        ({
            let tagged = buf.len() >= 10 && buf[0] == 0x49 && buf[1] == 0x44 && buf[2] == 0x33;
            let footer = if buf[5] & 0x10 != 0 {
                10int
            } else {
                0int
            };
            &&& !tagged ==> id3v2_skip(buf) == Ok::<int, Error>(0)
            &&& tagged && 10 + n + footer <= buf.len() ==> id3v2_skip(buf) == Ok::<int, Error>(
                10 + n + footer,
            )
            &&& tagged && 10 + n + footer > buf.len() ==> id3v2_skip(buf) == Err::<int, Error>(
                Error::Truncated,
            )
        }),
{
}

/// Every ID3v2 tag is skipped whole: one built around any content of up to
/// 28 bits of length, with any version, is passed over with exactly its own
/// bytes, whatever follows, and refused where the end of it is missing.
#[verifier::rlimit(60)]
pub proof fn law_id3v2_tag_is_skipped(
    version: u8,
    revision: u8,
    flags: u8,
    content: Seq<u8>,
    rest: Seq<u8>,
    cut: int,
)
    requires
        content.len() < 0x1000_0000,
    ensures
        ({
            let n = content.len() as int;
            let head = seq![
                0x49u8,
                0x44u8,
                0x33u8,
                version,
                revision,
                flags,
                (n / 0x20_0000) as u8,
                (n / 0x4000 % 128) as u8,
                (n / 0x80 % 128) as u8,
                (n % 128) as u8,
            ];
            let buf = head + content + rest;
            &&& flags & 0x10 == 0 ==> id3v2_skip(buf) == Ok::<int, Error>(10 + n)
            &&& flags & 0x10 != 0 && rest.len() >= 10 ==> id3v2_skip(buf) == Ok::<int, Error>(
                20 + n,
            )
            &&& flags & 0x10 != 0 && rest.len() < 10 ==> id3v2_skip(buf) == Err::<int, Error>(
                Error::Truncated,
            )
            &&& 10 <= cut < 10 + n ==> id3v2_skip(buf.take(cut)) == Err::<int, Error>(
                Error::Truncated,
            )
            &&& 0 <= cut < 10 ==> id3v2_skip(buf.take(cut)) == Ok::<int, Error>(0)
        }),
{
    let n = content.len() as int;
    let head = seq![
        0x49u8,
        0x44u8,
        0x33u8,
        version,
        revision,
        flags,
        (n / 0x20_0000) as u8,
        (n / 0x4000 % 128) as u8,
        (n / 0x80 % 128) as u8,
        (n % 128) as u8,
    ];
    let buf = head + content + rest;
    assert(buf[0] == head[0] && buf[1] == head[1] && buf[2] == head[2] && buf[5] == head[5]
        && buf[6] == head[6] && buf[7] == head[7] && buf[8] == head[8] && buf[9] == head[9]);
    law_id3v2_size_is_28_bits(buf, n);
    if 10 <= cut < 10 + n {
        let short = buf.take(cut);
        assert(short[0] == head[0] && short[1] == head[1] && short[2] == head[2] && short[5]
            == head[5] && short[6] == head[6] && short[7] == head[7] && short[8] == head[8]
            && short[9] == head[9]);
        law_id3v2_size_is_28_bits(short, n);
    }
}

/// A regular frame plays for 256/245 of a second, rounded down to whole
/// samples.
pub proof fn law_regular_frame_is_256_245_of_rate(sample_rate: u32)
    ensures
        sample_rate < 4_000_000_000 ==> 245 * regular_samples(sample_rate) <= 256 * sample_rate
            < 245 * regular_samples(sample_rate) + 245,
        (256 * sample_rate / 245 - regular_samples(sample_rate)) % 0x1_0000_0000 == 0,
{
}

/// A sample takes the fewest whole bytes that hold its bits.
pub proof fn law_byte_width_is_least(bits_per_sample: u16)
    ensures
        8 * byte_width(bits_per_sample) - 8 < bits_per_sample <= 8 * byte_width(bits_per_sample),
{
}

/// The frames cover a stream exactly: all but the last are regular, and the
/// last holds what is left, at least one sample and at most a regular frame.
/// A stream without samples, or without a regular length, has no frames.
pub proof fn law_geometry_covers_stream(total: u32, regular: u32)
    ensures
        ({
            let (count, last) = geometry(total, regular);
            if regular == 0 || total == 0 {
                count == 0 && last == 0
            } else {
                &&& count >= 1
                &&& 1 <= last <= regular
                &&& (count - 1) * regular + last == total
            }
        }),
{
    if regular > 0 && total > 0 {
        let q = total / regular;
        let m = total % regular;
        vstd::arithmetic::div_mod::lemma_fundamental_div_mod(total as int, regular as int);
        vstd::arithmetic::mul::lemma_mul_is_commutative(regular as int, q as int);
        lemma_frames_exist(total, regular);
        if m != 0 {
            lemma_frame_count_fits(total, regular);
        } else {
            vstd::arithmetic::mul::lemma_mul_is_distributive_sub_other_way(
                regular as int,
                q as int,
                1,
            );
        }
    }
}

/// A header's frames cover its samples exactly, in regular frames of its
/// sample rate.
pub proof fn law_frames_cover_stream(h: StreamHeader)
    ensures
        ({
            let regular = regular_samples(h.sample_rate);
            let (count, last) = h.geometry();
            if regular == 0 || h.total_samples == 0 {
                count == 0 && last == 0
            } else {
                &&& count >= 1
                &&& 1 <= last <= regular
                &&& (count - 1) * regular + last == h.total_samples
            }
        }),
{
    law_geometry_covers_stream(h.total_samples, regular_samples(h.sample_rate));
}

/// Two formats are in scope, one to six channels, 16 to 24 bits and rates of
/// up to 23 bits; whatever is out of scope has an error of its own.
pub proof fn law_scope(h: StreamHeader)
    ensures
        h.in_scope() <==> (h.format == 1 || h.format == 2) && 1 <= h.channels <= 6 && 16
            <= h.bits_per_sample <= 24 && 1 <= h.sample_rate <= 0x7F_FFFF,
        h.in_scope() <==> field_error(h) is None,
        Format::Simple.raw() == 1,
        Format::Encrypted.raw() == 2,
{
}

/// Where each field of a header stands: the magic, three fields of two bytes
/// and two of four, all lowest byte first, and the CRC of those 18 bytes.
#[verifier::rlimit(60)]
pub proof fn law_header_layout(h: StreamHeader)
    ensures
        ({
            let b = header_bytes(h);
            &&& b.len() == 22
            &&& b[0] == 0x54 && b[1] == 0x54 && b[2] == 0x41 && b[3] == 0x31
            &&& b[4] + 0x100 * b[5] == h.format
            &&& b[6] + 0x100 * b[7] == h.channels
            &&& b[8] + 0x100 * b[9] == h.bits_per_sample
            &&& b[10] + 0x100 * b[11] + 0x1_0000 * b[12] + 0x100_0000 * b[13] == h.sample_rate
            &&& b[14] + 0x100 * b[15] + 0x1_0000 * b[16] + 0x100_0000 * b[17] == h.total_samples
            &&& b[18] + 0x100 * b[19] + 0x1_0000 * b[20] + 0x100_0000 * b[21] == crc32_spec(
                b.take(18),
            )
        }),
{
    lemma_prefix_layout(h);
    let p = header_prefix(h);
    let b = header_bytes(h);
    let c = crc32_spec(p);
    assert(b.take(18) =~= p);
    assert(b.subrange(18, 22) =~= le32_bytes(c));
    assert(b.subrange(0, 4) =~= p.subrange(0, 4));
    assert(b.subrange(4, 6) =~= p.subrange(4, 6));
    assert(b.subrange(6, 8) =~= p.subrange(6, 8));
    assert(b.subrange(8, 10) =~= p.subrange(8, 10));
    assert(b.subrange(10, 14) =~= p.subrange(10, 14));
    assert(b.subrange(14, 18) =~= p.subrange(14, 18));
    let magic = b.subrange(0, 4);
    assert(b[0] == magic[0] && b[1] == magic[1] && b[2] == magic[2] && b[3] == magic[3]);
    lemma_le16_at(b, 4, h.format);
    lemma_le16_at(b, 6, h.channels);
    lemma_le16_at(b, 8, h.bits_per_sample);
    lemma_le32_at(b, 10, h.sample_rate);
    lemma_le32_at(b, 14, h.total_samples);
    lemma_le32_at(b, 18, c);
}

proof fn lemma_le16_at(b: Seq<u8>, at: int, v: u16)
    requires
        0 <= at,
        at + 2 <= b.len(),
        b.subrange(at, at + 2) == le16_bytes(v),
    ensures
        b[at] + 0x100 * b[at + 1] == v,
{
    let s = b.subrange(at, at + 2);
    assert(b[at] == s[0] && b[at + 1] == s[1]);
}

proof fn lemma_le32_at(b: Seq<u8>, at: int, v: u32)
    requires
        0 <= at,
        at + 4 <= b.len(),
        b.subrange(at, at + 4) == le32_bytes(v),
    ensures
        b[at] + 0x100 * b[at + 1] + 0x1_0000 * b[at + 2] + 0x100_0000 * b[at + 3] == v,
{
    let s = b.subrange(at, at + 4);
    assert(b[at] == s[0] && b[at + 1] == s[1] && b[at + 2] == s[2] && b[at + 3] == s[3]);
}

/// What parsing a header gives, for every byte string: the first thing wrong
/// with it, in the order length, magic, CRC, format, channels, bit depth and
/// rate, or else the numbers its bytes spell.
#[verifier::rlimit(60)]
pub proof fn law_parse_header_reads_fields(buf: Seq<u8>)
    ensures
        buf.len() < 22 ==> parse_header(buf) == Err::<StreamHeader, Error>(Error::Truncated),
        buf.len() >= 22 ==> ({
            let magic = buf[0] == 0x54 && buf[1] == 0x54 && buf[2] == 0x41 && buf[3] == 0x31;
            let crc = buf[18] + 0x100 * buf[19] + 0x1_0000 * buf[20] + 0x100_0000 * buf[21];
            let format = buf[4] + 0x100 * buf[5];
            let channels = buf[6] + 0x100 * buf[7];
            let bits = buf[8] + 0x100 * buf[9];
            let rate = buf[10] + 0x100 * buf[11] + 0x1_0000 * buf[12] + 0x100_0000 * buf[13];
            let total = buf[14] + 0x100 * buf[15] + 0x1_0000 * buf[16] + 0x100_0000 * buf[17];
            match parse_header(buf) {
                Ok(h) => {
                    &&& magic && crc == crc32_spec(buf.take(18))
                    &&& format == 1 || format == 2
                    &&& 1 <= channels <= 6
                    &&& 16 <= bits <= 24
                    &&& 1 <= rate <= 0x7F_FFFF
                    &&& h.format == format && h.channels == channels && h.bits_per_sample == bits
                    &&& h.sample_rate == rate && h.total_samples == total
                },
                Err(e) => if !magic {
                    e == Error::InvalidMagic
                } else if crc != crc32_spec(buf.take(18)) {
                    e == (Error::Crc32Mismatch { region: "header" })
                } else if format != 1 && format != 2 {
                    e == Error::UnsupportedFormat(format as u16)
                } else if channels == 0 || channels > 6 {
                    e == Error::UnsupportedChannelCount(channels as u16)
                } else if bits < 16 || bits > 24 {
                    e == Error::UnsupportedBitDepth(bits as u16)
                } else {
                    (rate == 0 || rate > 0x7F_FFFF) && e == Error::UnsupportedSampleRate(
                        rate as u32,
                    )
                },
            }
        }),
{
    if buf.len() >= 22 {
        let b = buf.take(4);
        let m = seq![0x54u8, 0x54u8, 0x41u8, 0x31u8];
        assert(b[0] == buf[0] && b[1] == buf[1] && b[2] == buf[2] && b[3] == buf[3]);
        if buf[0] == 0x54 && buf[1] == 0x54 && buf[2] == 0x41 && buf[3] == 0x31 {
            assert(b =~= m);
        } else {
            assert(b != m) by {
                assert(m[0] == 0x54 && m[1] == 0x54 && m[2] == 0x41 && m[3] == 0x31);
            }
        }
    }
}

/// What the seek table says of the frames: one descriptor for each; each
/// stands where the one before it ends, the first right behind the table; its
/// size is the number its entry spells; and all are regular but the last.
pub proof fn law_seek_table_chains_frames(buf: Seq<u8>, h: StreamHeader, start: u64, i: int)
    requires
        0 <= i < h.geometry().0,
    ensures
        seek_frames(buf, h, start).len() == h.geometry().0,
        seek_frames(buf, h, start)[0].file_offset == start,
        ({
            let fd = seek_frames(buf, h, start)[i];
            &&& fd.disk_size == buf[4 * i] + 0x100 * buf[4 * i + 1] + 0x1_0000 * buf[4 * i + 2]
                + 0x100_0000 * buf[4 * i + 3]
            &&& fd.is_last <==> i == h.geometry().0 - 1
            &&& fd.sample_count == if i == h.geometry().0 - 1 {
                h.geometry().1
            } else {
                regular_samples(h.sample_rate)
            }
            &&& i + 1 < h.geometry().0 && fd.file_offset + fd.disk_size <= u64::MAX ==> seek_frames(
                buf,
                h,
                start,
            )[i + 1].file_offset == fd.file_offset + fd.disk_size
            &&& i + 1 < h.geometry().0 && fd.file_offset + fd.disk_size > u64::MAX ==> seek_frames(
                buf,
                h,
                start,
            )[i + 1].file_offset == u64::MAX
        }),
{
    let frames = seek_frames(buf, h, start);
    assert(frames[0] == frame_at(buf, h, start, 0));
    assert(frames[i] == frame_at(buf, h, start, i));
    if i + 1 < h.geometry().0 {
        assert(frames[i + 1] == frame_at(buf, h, start, i + 1));
        assert(4 * (i + 1 - 1) == 4 * i);
    }
}

/// A seek table has four bytes for each frame and four for its CRC, which is
/// right exactly where it is the CRC of all the entries.
pub proof fn law_seek_table_size(buf: Seq<u8>, h: StreamHeader)
    requires
        buf.len() >= 4 * h.geometry().0 + 4,
    ensures
        seek_table_len(h) == 4 * h.geometry().0 + 4,
        ({
            let n = 4 * h.geometry().0;
            seek_crc_ok(buf, h) <==> crc32_spec(buf.take(n)) == buf[n] + 0x100 * buf[n + 1]
                + 0x1_0000 * buf[n + 2] + 0x100_0000 * buf[n + 3]
        }),
{
}

} // verus!
