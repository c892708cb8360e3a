//! Stage A: an 8-tap sign-LMS adaptive predictor.
//!
//! One step, given the state left by the previous one:
//!
//! 1. nudge each weight `qm[i]` by `dx[i]` in the direction of the previous
//!    residual's sign;
//! 2. predict from the history `dl` and the nudged weights;
//! 3. shift the lower halves of `dx` and `dl` one place towards index 0;
//! 4. regenerate the upper half of `dx` from the signs of `dl[4..8]`;
//! 5. record the residual and regenerate the upper half of `dl` from the
//!    sample and its differences.

use crate::bits::lemma_shift_rounds_down;
use crate::tables::{lms_dx_magnitude_spec, lms_dx_magnitudes, lms_shift, lms_shift_spec};
use vstd::prelude::*;

verus! {

/// Per-channel filter state.
#[derive(Debug, Clone, Copy, PartialEq, Eq)]
pub struct LmsState {
    pub dl: [i32; 8],
    pub dx: [i32; 8],
    pub qm: [i32; 8],
    pub error: i32,
    pub shift: i32,
    pub round: i32,
}

/// The filter state as mathematics.
pub struct LmsModel {
    pub dl: Seq<i32>,
    pub dx: Seq<i32>,
    pub qm: Seq<i32>,
    pub error: i32,
    pub shift: i32,
    pub round: i32,
}

impl View for LmsState {
    type V = LmsModel;

    open spec fn view(&self) -> LmsModel {
        LmsModel {
            dl: self.dl@,
            dx: self.dx@,
            qm: self.qm@,
            error: self.error,
            shift: self.shift,
            round: self.round,
        }
    }
}

/// Eight zeros.
pub open spec fn zero_taps() -> Seq<i32> {
    Seq::new(8, |i: int| 0i32)
}

/// The weight after the sign-driven update.
pub open spec fn nudged(q: i32, d: i32, error: i32) -> i32 {
    if error > 0 {
        q.wrapping_add(d)
    } else if error < 0 {
        q.wrapping_sub(d)
    } else {
        q
    }
}

/// `bias` plus the first `n` products of history and weights, wrapping.
pub open spec fn dot(bias: i32, dl: Seq<i32>, qm: Seq<i32>, n: int) -> i32
    decreases n,
{
    if n <= 0 {
        bias
    } else {
        dot(bias, dl, qm, n - 1).wrapping_add(dl[n - 1].wrapping_mul(qm[n - 1]))
    }
}

/// The step size of tap `4 + k` carrying the sign of `history`.
pub open spec fn signed_step(k: int, history: i32) -> i32 {
    if history < 0 {
        (-lms_dx_magnitude_spec(k)) as i32
    } else {
        lms_dx_magnitude_spec(k)
    }
}

impl LmsModel {
    /// A state at the start of a frame. `prime` is the initial weights.
    pub open spec fn initial(bytes_per_sample: int, prime: Seq<i32>) -> LmsModel {
        let shift = lms_shift_spec(bytes_per_sample);
        LmsModel {
            dl: zero_taps(),
            dx: zero_taps(),
            qm: prime,
            error: 0,
            shift,
            round: if shift == 9 {
                256
            } else {
                512
            },
        }
    }

    /// The weights used by the next prediction.
    pub open spec fn weights(self) -> Seq<i32> {
        Seq::new(8, |i: int| nudged(self.qm[i], self.dx[i], self.error))
    }

    /// The next prediction.
    pub open spec fn prediction(self) -> i32 {
        dot(self.round, self.dl, self.weights(), 8) >> self.shift
    }

    /// The state after residual `e` and sample `s` have been seen.
    pub open spec fn advanced(self, e: i32, s: i32) -> LmsModel {
        LmsModel {
            dl: seq![
                self.dl[1],
                self.dl[2],
                self.dl[3],
                self.dl[4],
                s.wrapping_sub(self.dl[5]).wrapping_sub(self.dl[6]).wrapping_sub(self.dl[7]),
                s.wrapping_sub(self.dl[6]).wrapping_sub(self.dl[7]),
                s.wrapping_sub(self.dl[7]),
                s,
            ],
            dx: seq![
                self.dx[1],
                self.dx[2],
                self.dx[3],
                self.dx[4],
                signed_step(0, self.dl[4]),
                signed_step(1, self.dl[5]),
                signed_step(2, self.dl[6]),
                signed_step(3, self.dl[7]),
            ],
            qm: self.weights(),
            error: e,
            shift: self.shift,
            round: self.round,
        }
    }

    /// The decoder's step: the sample for residual `e`.
    pub open spec fn sample(self, e: i32) -> i32 {
        e.wrapping_add(self.prediction())
    }

    /// The encoder's step: the residual for sample `s`.
    pub open spec fn residual(self, s: i32) -> i32 {
        s.wrapping_sub(self.prediction())
    }
}

/// What one decoding step saw and produced.
#[derive(Debug, Clone, Copy, PartialEq, Eq)]
pub struct LmsTrace {
    pub dl_pre: [i32; 8],
    pub dx_pre: [i32; 8],
    pub qm_pre: [i32; 8],
    pub error_pre: i32,
    pub predicted_a: i32,
    pub sample_after_a: i32,
    pub dl_post: [i32; 8],
    pub dx_post: [i32; 8],
    pub qm_post: [i32; 8],
}

impl LmsState {
    /// The prediction's right shift is a valid shift distance.
    pub open spec fn wf(&self) -> bool {
        0 <= self.shift < 32
    }

    /// Frame-entry state for a byte width: all registers zero, `shift` and
    /// its rounding addend fixed for the frame.
    pub fn frame_init(bytes_per_sample: usize) -> (r: Self)
        requires
            1 <= bytes_per_sample <= 3,
        ensures
            r.wf(),
            r@ == LmsModel::initial(bytes_per_sample as int, zero_taps()),
    {
        let shift: i32 = lms_shift(bytes_per_sample);
        assert(1i32 << 8i32 == 256 && 1i32 << 9i32 == 512) by (bit_vector);
        let round: i32 = 1i32 << (shift - 1);
        let r = LmsState { dl: [0; 8], dx: [0; 8], qm: [0; 8], error: 0, shift, round };
        assert(r.dl@ =~= zero_taps());
        assert(r.dx@ =~= zero_taps());
        assert(r.qm@ =~= zero_taps());
        r
    }

    /// Steps 1 and 2: update the weights and predict.
    fn predict(&mut self) -> (p: i32)
        requires
            old(self).wf(),
        ensures
            p == old(self)@.prediction(),
            final(self)@ == (LmsModel { qm: old(self)@.weights(), ..old(self)@ }),
    {
        let ghost before = self@;
        let mut i: usize = 0;
        while i < 8
            invariant
                i <= 8,
                self@.dl == before.dl,
                self@.dx == before.dx,
                self.error == before.error,
                self.shift == before.shift,
                self.round == before.round,
                forall|j: int| 0 <= j < i ==> self.qm[j] == before.weights()[j],
                forall|j: int| i <= j < 8 ==> self.qm[j] == before.qm[j],
            decreases 8 - i,
        {
            let q: i32 = self.qm[i];
            let d: i32 = self.dx[i];
            self.qm[i] = if self.error > 0 {
                q.wrapping_add(d)
            } else if self.error < 0 {
                q.wrapping_sub(d)
            } else {
                q
            };
            i = i + 1;
        }
        assert(self.qm@ =~= before.weights());
        let mut sum: i32 = self.round;
        let mut j: usize = 0;
        while j < 8
            invariant
                j <= 8,
                sum == dot(before.round, before.dl, before.weights(), j as int),
                self.dl@ == before.dl,
                self.qm@ == before.weights(),
            decreases 8 - j,
        {
            sum = sum.wrapping_add(self.dl[j].wrapping_mul(self.qm[j]));
            j = j + 1;
        }
        sum >> self.shift
    }

    /// Steps 3 to 5: take in residual `e` and sample `s`.
    fn absorb(&mut self, e: i32, s: i32)
        ensures
            final(self).dl@ == old(self)@.advanced(e, s).dl,
            final(self).dx@ == old(self)@.advanced(e, s).dx,
            final(self).qm == old(self).qm,
            final(self).error == e,
            final(self).shift == old(self).shift,
            final(self).round == old(self).round,
    {
        let mags = lms_dx_magnitudes();
        let dl = self.dl;
        let dx = self.dx;
        self.dx = [
            dx[1],
            dx[2],
            dx[3],
            dx[4],
            if dl[4] < 0 {
                -mags[0]
            } else {
                mags[0]
            },
            if dl[5] < 0 {
                -mags[1]
            } else {
                mags[1]
            },
            if dl[6] < 0 {
                -mags[2]
            } else {
                mags[2]
            },
            if dl[7] < 0 {
                -mags[3]
            } else {
                mags[3]
            },
        ];
        self.error = e;
        self.dl = [
            dl[1],
            dl[2],
            dl[3],
            dl[4],
            s.wrapping_sub(dl[5]).wrapping_sub(dl[6]).wrapping_sub(dl[7]),
            s.wrapping_sub(dl[6]).wrapping_sub(dl[7]),
            s.wrapping_sub(dl[7]),
            s,
        ];
        assert(self.dl@ =~= old(self)@.advanced(e, s).dl);
        assert(self.dx@ =~= old(self)@.advanced(e, s).dx);
    }

    /// One decoder step: consume residual `e`, return the reconstructed
    /// sample.
    pub fn step(&mut self, e: i32) -> (s: i32)
        requires
            old(self).wf(),
        ensures
            final(self).wf(),
            s == old(self)@.sample(e),
            final(self)@ == old(self)@.advanced(e, s),
    {
        let p: i32 = self.predict();
        let s: i32 = e.wrapping_add(p);
        self.absorb(e, s);
        s
    }

    /// One decoder step, reporting the registers on both sides of it.
    pub fn step_traced(&mut self, e: i32) -> (t: LmsTrace)
        requires
            old(self).wf(),
        ensures
            final(self).wf(),
            t.sample_after_a == old(self)@.sample(e),
            final(self)@ == old(self)@.advanced(e, t.sample_after_a),
            t.predicted_a == old(self)@.prediction(),
            t.dl_pre == old(self).dl,
            t.dx_pre == old(self).dx,
            t.qm_pre == old(self).qm,
            t.error_pre == old(self).error,
            t.dl_post == final(self).dl,
            t.dx_post == final(self).dx,
            t.qm_post == final(self).qm,
    {
        let pre = *self;
        let p: i32 = self.predict();
        let s: i32 = e.wrapping_add(p);
        self.absorb(e, s);
        LmsTrace {
            dl_pre: pre.dl,
            dx_pre: pre.dx,
            qm_pre: pre.qm,
            error_pre: pre.error,
            predicted_a: p,
            sample_after_a: s,
            dl_post: self.dl,
            dx_post: self.dx,
            qm_post: self.qm,
        }
    }

    /// One encoder step: consume sample `s`, return its residual.
    pub fn step_encode(&mut self, s: i32) -> (e: i32)
        requires
            old(self).wf(),
        ensures
            final(self).wf(),
            e == old(self)@.residual(s),
            final(self)@ == old(self)@.advanced(e, s),
    {
        let p: i32 = self.predict();
        let e: i32 = s.wrapping_sub(p);
        self.absorb(e, s);
        e
    }
}

/// The decoder's step undoes the encoder's: from the same state it turns
/// the residual back into the sample and ends in the same state.
pub proof fn law_stage_a_round_trip(m: LmsModel, s: i32)
    ensures
        m.sample(m.residual(s)) == s,
        m.advanced(m.residual(s), m.sample(m.residual(s))) == m.advanced(m.residual(s), s),
{
}

/// A filter starts a frame with empty history, no steps and no residual, the
/// given weights, a shift of 9 for two-byte samples and 10 for others, and
/// half of the shift's power of two for rounding.
pub proof fn law_stage_a_start(bytes_per_sample: int, prime: Seq<i32>)
    requires
        1 <= bytes_per_sample <= 3,
    ensures
        ({
            let m = LmsModel::initial(bytes_per_sample, prime);
            &&& m.dl == seq![0i32, 0i32, 0i32, 0i32, 0i32, 0i32, 0i32, 0i32]
            &&& m.dx == seq![0i32, 0i32, 0i32, 0i32, 0i32, 0i32, 0i32, 0i32]
            &&& m.qm == prime
            &&& m.error == 0
            &&& bytes_per_sample == 2 ==> m.shift == 9 && m.round == 256
            &&& bytes_per_sample != 2 ==> m.shift == 10 && m.round == 512
        }),
{
    assert(zero_taps() =~= seq![0i32, 0i32, 0i32, 0i32, 0i32, 0i32, 0i32, 0i32]);
}

/// Every weight moves by its step, up after a positive residual, down after a
/// negative one and not at all after zero, wrapping.
pub proof fn law_weights_follow_sign(m: LmsModel, i: int)
    requires
        0 <= i < 8,
    ensures
        m.weights().len() == 8,
        ({
            let moved = m.weights()[i] - m.qm[i];
            &&& m.error > 0 ==> (moved - m.dx[i]) % 0x1_0000_0000 == 0
            &&& m.error < 0 ==> (moved + m.dx[i]) % 0x1_0000_0000 == 0
            &&& m.error == 0 ==> moved == 0
        }),
{
}

/// The prediction is the rounding addend and the eight products of history
/// and moved weights, summed up to 32 bits and divided by the power of two of
/// the shift, rounded down.
#[verifier::rlimit(60)]
pub proof fn law_stage_a_prediction(m: LmsModel)
    requires
        m.shift == 9 || m.shift == 10,
    ensures
        ({
            let w = m.weights();
            let d = m.dl;
            let sum = m.round + d[0] * w[0] + d[1] * w[1] + d[2] * w[2] + d[3] * w[3] + d[4] * w[4]
                + d[5] * w[5] + d[6] * w[6] + d[7] * w[7];
            let unit = if m.shift == 9 {
                512int
            } else {
                1024int
            };
            let p = m.prediction();
            &&& 0 <= (sum - unit * p) % 0x1_0000_0000 < unit
            &&& -0x8000_0000 <= unit * p < 0x8000_0000
            &&& -0x8000_0000 <= sum < 0x8000_0000 ==> unit * p <= sum < unit * p + unit
        }),
{
    let w = m.weights();
    let d = m.dl;
    let x = dot(m.round, d, w, 8);
    reveal_with_fuel(exact_dot, 9);
    let k = lemma_dot_wraps_sum(m.round, d, w, 8);
    lemma_shift_rounds_down(x);
    let sum = exact_dot(m.round, d, w, 8);
    let unit = if m.shift == 9 {
        512int
    } else {
        1024int
    };
    let p = m.prediction();
    assert((sum - unit * p) % 0x1_0000_0000 == x - unit * p) by {
        vstd::arithmetic::div_mod::lemma_mod_multiples_vanish(k, x - unit * p, 0x1_0000_0000);
        vstd::arithmetic::div_mod::lemma_small_mod((x - unit * p) as nat, 0x1_0000_0000);
        assert(sum - unit * p == 0x1_0000_0000 * k + (x - unit * p));
    }
    if -0x8000_0000 <= sum < 0x8000_0000 {
        assert(k == 0);
    }
}

/// What a filter keeps after a residual and its sample: the weights just
/// used; history and steps moved down by one place in their lower halves;
/// steps of 1, 2, 2 and 4 with the signs of the old upper history; and the
/// sample with its first, second and third differences as the new one.
pub proof fn law_stage_a_advances(m: LmsModel, e: i32, s: i32)
    ensures
        ({
            let a = m.advanced(e, s);
            &&& a.qm == m.weights()
            &&& a.error == e && a.shift == m.shift && a.round == m.round
            &&& a.dl.len() == 8 && a.dx.len() == 8
            &&& forall|i: int|
                0 <= i < 4 ==> #[trigger] a.dl[i] == m.dl[i + 1] && a.dx[i] == m.dx[i + 1]
            &&& a.dx[4] == if m.dl[4] < 0 { -1int } else { 1int }
            &&& a.dx[5] == if m.dl[5] < 0 { -2int } else { 2int }
            &&& a.dx[6] == if m.dl[6] < 0 { -2int } else { 2int }
            &&& a.dx[7] == if m.dl[7] < 0 { -4int } else { 4int }
            &&& a.dl[7] == s
            &&& (a.dl[6] - (a.dl[7] - m.dl[7])) % 0x1_0000_0000 == 0
            &&& (a.dl[5] - (a.dl[6] - m.dl[6])) % 0x1_0000_0000 == 0
            &&& (a.dl[4] - (a.dl[5] - m.dl[5])) % 0x1_0000_0000 == 0
        }),
{
    let a = m.advanced(e, s);
    let d6 = s.wrapping_sub(m.dl[7]);
    let t5 = s.wrapping_sub(m.dl[6]);
    let t4 = s.wrapping_sub(m.dl[5]);
    assert(a.dl[7] == s && a.dl[6] == d6 && a.dl[5] == t5.wrapping_sub(m.dl[7]) && a.dl[4]
        == t4.wrapping_sub(m.dl[6]).wrapping_sub(m.dl[7]));
}

/// The sample is the residual and the prediction together, wrapping, in both
/// directions.
pub proof fn law_stage_a_adds_prediction(m: LmsModel, e: i32, s: i32)
    ensures
        (m.sample(e) - (e + m.prediction())) % 0x1_0000_0000 == 0,
        (m.residual(s) - (s - m.prediction())) % 0x1_0000_0000 == 0,
{
}

/// `dot` without the wrapping.
spec fn exact_dot(bias: i32, dl: Seq<i32>, qm: Seq<i32>, n: int) -> int
    decreases n,
{
    if n <= 0 {
        bias as int
    } else {
        exact_dot(bias, dl, qm, n - 1) + dl[n - 1] * qm[n - 1]
    }
}

proof fn lemma_dot_wraps_sum(bias: i32, dl: Seq<i32>, qm: Seq<i32>, n: int) -> (k: int)
    requires
        0 <= n,
    ensures
        exact_dot(bias, dl, qm, n) - dot(bias, dl, qm, n) == k * 0x1_0000_0000,
    decreases n,
{
    if n == 0 {
        0
    } else {
        let k = lemma_dot_wraps_sum(bias, dl, qm, n - 1);
        let b = dot(bias, dl, qm, n - 1);
        let p = dl[n - 1].wrapping_mul(qm[n - 1]);
        let j = lemma_product_wraps(dl[n - 1], qm[n - 1]);
        let l = (b + p - b.wrapping_add(p)) / 0x1_0000_0000;
        k + j + l
    }
}

proof fn lemma_product_wraps(x: i32, y: i32) -> (j: int)
    ensures
        x * y - x.wrapping_mul(y) == j * 0x1_0000_0000,
{
    let prod = x * y;
    let p = x.wrapping_mul(y);
    let j = (prod - p) / 0x1_0000_0000;
    assert(prod - p == j * 0x1_0000_0000);
    j
}

} // verus!
