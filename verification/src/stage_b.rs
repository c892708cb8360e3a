//! Stage B: a fixed first-order recursive predictor.
//!
//! One register per channel. The prediction is `(prev * 31) >> 5` with an
//! arithmetic shift and no rounding; the sample becomes the next `prev`.

use crate::bits::lemma_shift_rounds_down;
use vstd::prelude::*;

verus! {

/// Per-channel Stage-B state.
#[derive(Debug, Clone, Copy, PartialEq, Eq, Structural)]
pub struct StageBState {
    pub prev: i32,
}

/// What one decoding step saw and produced.
#[derive(Debug, Clone, Copy, PartialEq, Eq, Structural)]
pub struct StageBTrace {
    pub prev_in: i32,
    pub predicted_b: i32,
    pub residual_b: i32,
    pub sample_after_b: i32,
}

impl Default for StageBState {
    fn default() -> (r: Self)
        ensures
            r.prev == 0,
    {
        StageBState { prev: 0 }
    }
}

/// The prediction from the previous sample.
pub open spec fn stage_b_prediction(prev: i32) -> i32 {
    prev.wrapping_mul(31) >> 5
}

impl StageBState {
    /// Frame-entry state.
    pub fn frame_init() -> (r: Self)
        ensures
            r.prev == 0,
    {
        StageBState { prev: 0 }
    }

    /// One decoder step: add the prediction to the residual `s_a`.
    pub fn step(&mut self, s_a: i32) -> (s_b: i32)
        ensures
            s_b == s_a.wrapping_add(stage_b_prediction(old(self).prev)),
            final(self).prev == s_b,
    {
        let p_b: i32 = self.prev.wrapping_mul(31) >> 5;
        let s_b: i32 = s_a.wrapping_add(p_b);
        self.prev = s_b;
        s_b
    }

    /// One decoder step, reporting its inputs and outputs.
    pub fn step_traced(&mut self, s_a: i32) -> (t: StageBTrace)
        ensures
            t.prev_in == old(self).prev,
            t.predicted_b == stage_b_prediction(old(self).prev),
            t.residual_b == s_a,
            t.sample_after_b == s_a.wrapping_add(t.predicted_b),
            final(self).prev == t.sample_after_b,
    {
        let prev_in: i32 = self.prev;
        let p_b: i32 = prev_in.wrapping_mul(31) >> 5;
        let s_b: i32 = s_a.wrapping_add(p_b);
        self.prev = s_b;
        StageBTrace { prev_in, predicted_b: p_b, residual_b: s_a, sample_after_b: s_b }
    }

    /// One encoder step: subtract the prediction from the sample `s_b`.
    pub fn step_encode(&mut self, s_b: i32) -> (s_a: i32)
        ensures
            s_a == s_b.wrapping_sub(stage_b_prediction(old(self).prev)),
            final(self).prev == s_b,
    {
        let p_b: i32 = self.prev.wrapping_mul(31) >> 5;
        let s_a: i32 = s_b.wrapping_sub(p_b);
        self.prev = s_b;
        s_a
    }
}

/// The decoder's step undoes the encoder's, for every register content and
/// every sample.
pub proof fn law_stage_b_round_trip(prev: i32, s_b: i32)
    ensures
        s_b.wrapping_sub(stage_b_prediction(prev)).wrapping_add(stage_b_prediction(prev)) == s_b,
{
}

/// The prediction is 31/32 of the previous sample, rounded down, for every
/// sample of up to 26 bits and a sign. Beyond that the product wraps to 32
/// bits first, and what comes out still leaves a remainder below 32.
pub proof fn law_stage_b_predicts_31_of_32(prev: i32)
    ensures
        -0x400_0000 <= prev <= 0x400_0000 ==> 32 * stage_b_prediction(prev) <= 31 * prev < 32
            * stage_b_prediction(prev) + 32,
        -0x400_0000 <= stage_b_prediction(prev) < 0x400_0000,
        0 <= (31 * prev - 32 * stage_b_prediction(prev)) % 0x1_0000_0000 < 32,
{
    let x = prev.wrapping_mul(31);
    lemma_shift_rounds_down(x);
    assert(x as int % 0x1_0000_0000 == (31 * prev) % 0x1_0000_0000);
    assert((31 * prev - 32 * (x >> 5)) % 0x1_0000_0000 == x - 32 * (x >> 5));
}

/// A prediction lies between zero and the sample it is made from, and keeps
/// the order of samples.
pub proof fn law_stage_b_prediction_is_monotone(a: i32, b: i32)
    requires
        -0x400_0000 <= a <= b <= 0x400_0000,
    ensures
        stage_b_prediction(a) <= stage_b_prediction(b),
        a >= 0 ==> 0 <= stage_b_prediction(a) <= a,
        b <= 0 ==> b <= stage_b_prediction(b) <= 0,
{
    law_stage_b_predicts_31_of_32(a);
    law_stage_b_predicts_31_of_32(b);
}

} // verus!
