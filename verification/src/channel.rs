//! One channel's coding pipeline.
//!
//! Decoding chains Rice decoding, Stage A and Stage B; encoding chains their
//! inverses in the opposite order. Both directions move the same state.

use crate::bitreader::BitReader;
use crate::bitwriter::BitWriter;
use crate::error::{Error, Result};
use crate::lms::{law_stage_a_round_trip, zero_taps, LmsModel, LmsState};
use crate::rice::{broken_rest, codeword, decode_step, encode_advanced, law_rice_round_trip};
use crate::rice::{decode_one, rice_encode_one, RiceState};
use crate::stage_b::{law_stage_b_round_trip, stage_b_prediction, StageBState};
use vstd::prelude::*;

verus! {

/// Everything a channel carries from one sample to the next.
pub struct ChannelState {
    pub rice: RiceState,
    pub lms: LmsState,
    pub stage_b: StageBState,
}

/// The channel state as mathematics.
pub struct ChannelModel {
    pub rice: RiceState,
    pub lms: LmsModel,
    pub prev: i32,
}

impl View for ChannelState {
    type V = ChannelModel;

    open spec fn view(&self) -> ChannelModel {
        ChannelModel { rice: self.rice, lms: self.lms@, prev: self.stage_b.prev }
    }
}

/// The initial Stage-A weights: the priming vector, or zeros without one.
pub open spec fn prime_or_zero(prime: Option<[i32; 8]>) -> Seq<i32> {
    match prime {
        Some(p) => p@,
        None => zero_taps(),
    }
}

impl ChannelModel {
    pub open spec fn wf(self) -> bool {
        &&& self.rice.wf()
        &&& 9 <= self.lms.shift <= 10
    }

    /// A channel at the start of a frame.
    pub open spec fn initial(bytes_per_sample: int, prime: Seq<i32>) -> ChannelModel {
        ChannelModel {
            rice: RiceState::initial(),
            lms: LmsModel::initial(bytes_per_sample, prime),
            prev: 0,
        }
    }

    /// Decode one sample off the front of `bits`: the sample, the channel
    /// after it, and the bits after it. `None` where the bits run out.
    pub open spec fn decode(self, bits: Seq<bool>) -> Option<(i32, ChannelModel, Seq<bool>)> {
        match decode_step(bits, self.rice) {
            Some((trace, rest)) => {
                let e = trace.residual_signed;
                let s_a = self.lms.sample(e);
                let s_b = s_a.wrapping_add(stage_b_prediction(self.prev));
                let post = ChannelModel {
                    rice: trace.state_post(),
                    lms: self.lms.advanced(e, s_a),
                    prev: s_b,
                };
                Some((s_b, post, rest))
            },
            None => None,
        }
    }

    /// The residual that stands for sample `s`.
    pub open spec fn residual(self, s: i32) -> i32 {
        self.lms.residual(s.wrapping_sub(stage_b_prediction(self.prev)))
    }

    /// The bits that stand for sample `s`.
    pub open spec fn encode(self, s: i32) -> Seq<bool> {
        codeword(self.rice, self.residual(s))
    }

    /// The channel after sample `s` has been encoded.
    pub open spec fn encoded(self, s: i32) -> ChannelModel {
        let e = self.residual(s);
        ChannelModel {
            rice: encode_advanced(self.rice, e),
            lms: self.lms.advanced(e, s.wrapping_sub(stage_b_prediction(self.prev))),
            prev: s,
        }
    }
}

/// The models of a row of channels.
pub open spec fn channel_views(chans: Seq<ChannelState>) -> Seq<ChannelModel> {
    Seq::new(chans.len(), |i: int| chans[i]@)
}

/// Fresh channels for one frame.
pub fn init_channels(nch: usize, bytes_per_sample: usize, prime: Option<[i32; 8]>) -> (r: Vec<
    ChannelState,
>)
    requires
        nch > 0 ==> 1 <= bytes_per_sample <= 3,
    ensures
        r@.len() == nch,
        channel_views(r@) == Seq::new(
            nch as nat,
            |i: int| ChannelModel::initial(bytes_per_sample as int, prime_or_zero(prime)),
        ),
        forall|i: int| 0 <= i < nch ==> (#[trigger] r@[i])@.wf(),
{
    let mut chans: Vec<ChannelState> = Vec::new();
    let mut i: usize = 0;
    while i < nch
        invariant
            i <= nch,
            nch > 0 ==> 1 <= bytes_per_sample <= 3,
            chans@.len() == i,
            forall|j: int|
                0 <= j < i ==> {
                    &&& (#[trigger] chans@[j])@ == ChannelModel::initial(
                        bytes_per_sample as int,
                        prime_or_zero(prime),
                    )
                    &&& chans@[j]@.wf()
                },
        decreases nch - i,
    {
        chans.push(ChannelState::frame_init(bytes_per_sample, prime));
        i = i + 1;
    }
    assert(channel_views(chans@) =~= Seq::new(
        nch as nat,
        |i: int| ChannelModel::initial(bytes_per_sample as int, prime_or_zero(prime)),
    ));
    chans
}

impl ChannelState {
    /// A channel at the start of a frame.
    pub fn frame_init(bytes_per_sample: usize, prime: Option<[i32; 8]>) -> (r: Self)
        requires
            1 <= bytes_per_sample <= 3,
        ensures
            r@ == ChannelModel::initial(bytes_per_sample as int, prime_or_zero(prime)),
            r@.wf(),
    {
        let mut lms = LmsState::frame_init(bytes_per_sample);
        if let Some(weights) = prime {
            lms.qm = weights;
        }
        ChannelState { rice: RiceState::frame_init(), lms, stage_b: StageBState::frame_init() }
    }

    /// Decode one sample.
    pub fn decode(&mut self, reader: &mut BitReader<'_>) -> (r: Result<i32>)
        requires
            old(self)@.wf(),
            old(reader).wf(),
        ensures
            final(self)@.wf(),
            final(reader).wf(),
            match r {
                Ok(s) => old(self)@.decode(old(reader)@) == Some((s, final(self)@, final(reader)@)),
                Err(e) => {
                    &&& e == Error::Truncated
                    &&& old(self)@.decode(old(reader)@) is None
                    &&& final(self)@ == old(self)@
                    &&& final(reader)@ == broken_rest(old(reader)@)
                },
            },
    {
        let e: i32 = match decode_one(reader, &mut self.rice) {
            Ok(e) => e,
            Err(err) => {
                return Err(err);
            },
        };
        let s_a: i32 = self.lms.step(e);
        Ok(self.stage_b.step(s_a))
    }

    /// Encode one sample.
    pub fn encode(&mut self, writer: &mut BitWriter, s: i32)
        requires
            old(self)@.wf(),
            old(writer).wf(),
        ensures
            final(self)@.wf(),
            final(writer).wf(),
            final(self)@ == old(self)@.encoded(s),
            final(writer)@ == old(writer)@ + old(self)@.encode(s),
    {
        let s_a: i32 = self.stage_b.step_encode(s);
        let e: i32 = self.lms.step_encode(s_a);
        rice_encode_one(writer, &mut self.rice, e);
    }
}

/// Decoding what a channel encoded gives back the sample and leaves the
/// decoding channel in the encoding channel's state, unless the residual is
/// the one number zigzag cannot carry.
pub proof fn law_channel_round_trip(c: ChannelModel, s: i32, rest: Seq<bool>)
    requires
        c.rice.wf(),
        c.residual(s) != i32::MIN,
    ensures
        c.decode(c.encode(s) + rest) == Some((s, c.encoded(s), rest)),
{
    let s_a = s.wrapping_sub(stage_b_prediction(c.prev));
    law_stage_b_round_trip(c.prev, s);
    law_stage_a_round_trip(c.lms, s_a);
    law_rice_round_trip(c.rice, c.residual(s), rest);
}

/// A sample below `2^30` in magnitude never leaves that one residual.
pub proof fn lemma_moderate_residual(c: ChannelModel, s: i32)
    requires
        c.wf(),
        -0x4000_0000 <= s <= 0x4000_0000,
    ensures
        c.residual(s) != i32::MIN,
{
    let product = c.prev.wrapping_mul(31);
    let sum = crate::lms::dot(c.lms.round, c.lms.dl, c.lms.weights(), 8);
    let shift = c.lms.shift as u32;
    let p_b = product >> 5;
    let p_a = sum >> shift;
    assert(-0x400_0000 <= p_b <= 0x400_0000 && -0x40_0000 <= p_a <= 0x40_0000) by (bit_vector)
        requires
            9 <= shift <= 10,
            p_b == product >> 5,
            p_a == sum >> shift,
    ;
}

} // verus!
