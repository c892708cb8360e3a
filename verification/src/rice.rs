//! Adaptive Rice entropy coding.
//!
//! Each channel carries two Rice parameters with their running sums. A
//! residual is zigzagged to an unsigned value; values below `2^k0` are sent
//! in low mode (empty unary prefix, `k0` tail bits), others in high mode
//! (non-empty unary prefix, `k1` tail bits, value reduced by `2^k0`). Both
//! directions move the parameters by the same rule, so they stay in step.

use crate::bitreader::{drawn_by_bits, drawn_by_unary, BitReader};
use crate::bits::{bits_value, leading_ones, low_bits, unary_bits};
use crate::bits::{law_digits_spell_number, lemma_bit_is_digit, lemma_leading_ones_unique};
use crate::bits::{lemma_low_bits_value, law_unary_round_trip};
use crate::bitwriter::BitWriter;
use crate::error::{Error, Result};
use vstd::arithmetic::power2::{lemma2_to64, lemma_pow2_pos, lemma_pow2_strictly_increases};
use vstd::arithmetic::power2::pow2;
use vstd::prelude::*;

verus! {

/// Ceiling on both Rice parameters.
pub const MAX_K: u32 = 31;

/// Per-channel adaptive Rice parameters.
#[derive(Debug, Clone, Copy, PartialEq, Eq, Structural)]
pub struct RiceState {
    pub k0: u32,
    pub k1: u32,
    pub sum0: u32,
    pub sum1: u32,
}

impl RiceState {
    /// Neither parameter exceeds `MAX_K`.
    pub open spec fn wf(&self) -> bool {
        self.k0 <= MAX_K && self.k1 <= MAX_K
    }

    /// The parameters at the start of every frame.
    pub open spec fn initial() -> RiceState {
        RiceState { k0: 10, k1: 10, sum0: 0x4000, sum1: 0x4000 }
    }

    /// Frame-entry parameters.
    pub fn frame_init() -> (r: Self)
        ensures
            r == RiceState::initial(),
            r.wf(),
    {
        RiceState { k0: 10, k1: 10, sum0: 0x4000, sum1: 0x4000 }
    }
}

impl Default for RiceState {
    fn default() -> (r: Self)
        ensures
            r == RiceState::initial(),
    {
        RiceState::frame_init()
    }
}

/// What one decoding step saw and produced.
#[derive(Debug, Clone, Copy, PartialEq, Eq, Structural)]
pub struct RiceTrace {
    pub raw_unary: u32,
    pub mode_high: bool,
    pub k_used: u32,
    pub residual_signed: i32,
    pub k0_post: u32,
    pub k1_post: u32,
    pub sum0_post: u32,
    pub sum1_post: u32,
}

impl RiceTrace {
    /// The parameters after the step.
    pub open spec fn state_post(&self) -> RiceState {
        RiceState { k0: self.k0_post, k1: self.k1_post, sum0: self.sum0_post, sum1: self.sum1_post }
    }
}

/// `2^shift`, held at `2^31` from there on.
pub open spec fn saturating_pow2(shift: int) -> u32 {
    if shift >= 31 {
        0x8000_0000
    } else {
        1u32 << (shift as u32)
    }
}

/// Leaky running sum: one sixteenth leaks out, the new value flows in.
pub open spec fn adapted_sum(sum: u32, value: u32) -> u32 {
    sum.wrapping_add(value).wrapping_sub(sum >> 4)
}

/// A parameter follows its sum, at most one step at a time, within `0..=MAX_K`.
pub open spec fn adapted_k(k: u32, sum: u32) -> u32 {
    if k > 0 && sum < saturating_pow2(k + 4) {
        (k - 1) as u32
    } else if k < MAX_K && sum > saturating_pow2(k + 5) {
        (k + 1) as u32
    } else {
        k
    }
}

/// The zigzagged value a codeword stands for, given the number `raw` its
/// prefix and tail spell out.
pub open spec fn coded_value(s: RiceState, high: bool, raw: u32) -> u32 {
    if high {
        raw.wrapping_add(saturating_pow2(s.k0 as int))
    } else {
        raw
    }
}

/// The parameters after a codeword of the given mode and raw number.
pub open spec fn advanced(s: RiceState, high: bool, raw: u32) -> RiceState {
    let sum1 = if high {
        adapted_sum(s.sum1, raw)
    } else {
        s.sum1
    };
    let k1 = if high {
        adapted_k(s.k1, sum1)
    } else {
        s.k1
    };
    let sum0 = adapted_sum(s.sum0, coded_value(s, high, raw));
    RiceState { k0: adapted_k(s.k0, sum0), k1, sum0, sum1 }
}

/// The zigzag map from residuals to unsigned values:
/// `0, 1, -1, 2, -2, ...` become `0, 1, 2, 3, 4, ...`. The one residual
/// without a value of its own, `i32::MIN`, goes to `0`.
pub open spec fn zigzag_spec(e: i32) -> u32 {
    if e > 0 {
        (2 * e - 1) as u32
    } else if e == i32::MIN {
        0
    } else {
        (-2 * e) as u32
    }
}

/// The inverse zigzag map. `u32::MAX`, which no residual maps to, gives `0`.
pub open spec fn dezigzag_spec(value: u32) -> i32 {
    if value == u32::MAX {
        0
    } else if value % 2 == 1 {
        ((value + 1) / 2) as i32
    } else {
        (-(value as int / 2)) as i32
    }
}

/// Read one codeword off the front of `bits`: what it decodes to, and the
/// bits after it. `None` where the bits run out.
pub open spec fn decode_step(bits: Seq<bool>, s: RiceState) -> Option<(RiceTrace, Seq<bool>)> {
    let n = leading_ones(bits);
    if n >= bits.len() {
        None
    } else {
        let u = (n % 0x1_0000_0000) as u32;
        let high = u != 0;
        let k = if high {
            s.k1
        } else {
            s.k0
        };
        let rest = bits.skip(n as int + 1);
        if k > rest.len() {
            None
        } else {
            let tail = bits_value(rest.take(k as int)) as u32;
            let raw = if high {
                ((u - 1) as u32).wrapping_shl(k).wrapping_add(tail)
            } else {
                tail
            };
            let post = advanced(s, high, raw);
            let trace = RiceTrace {
                raw_unary: u,
                mode_high: high,
                k_used: k,
                residual_signed: dezigzag_spec(coded_value(s, high, raw)),
                k0_post: post.k0,
                k1_post: post.k1,
                sum0_post: post.sum0,
                sum1_post: post.sum1,
            };
            Some((trace, rest.skip(k as int)))
        }
    }
}

/// The bits left where a codeword breaks off: none where its prefix has no
/// end, and those behind the prefix where its tail is too short.
pub open spec fn broken_rest(bits: Seq<bool>) -> Seq<bool> {
    let n = leading_ones(bits);
    if n >= bits.len() {
        Seq::empty()
    } else {
        bits.skip(n as int + 1)
    }
}

/// Bytes a reader with `len` bytes has drawn after reading one codeword off
/// the front of `bits`, all the bits it has left.
pub open spec fn drawn_by_codeword(bits: Seq<bool>, s: RiceState, drawn: nat, len: nat) -> nat {
    let n = leading_ones(bits);
    let end = 8 * len - bits.len() + n;
    let after_prefix = drawn_by_unary(drawn, len, end);
    if n >= bits.len() {
        after_prefix
    } else {
        let k = if n % 0x1_0000_0000 != 0 {
            s.k1
        } else {
            s.k0
        };
        drawn_by_bits(after_prefix, len, end + 1, k as int)
    }
}

/// Whether a zigzagged value is sent in high mode.
pub open spec fn is_high(s: RiceState, value: u32) -> bool {
    value >= saturating_pow2(s.k0 as int)
}

/// The number a codeword for `value` spells out.
pub open spec fn raw_of(s: RiceState, value: u32) -> u32 {
    if is_high(s, value) {
        (value - saturating_pow2(s.k0 as int)) as u32
    } else {
        value
    }
}

/// The codeword for residual `e`.
pub open spec fn codeword(s: RiceState, e: i32) -> Seq<bool> {
    let value = zigzag_spec(e);
    let raw = raw_of(s, value);
    if is_high(s, value) {
        unary_bits(((raw >> s.k1) + 1) as nat) + low_bits(raw as u64, s.k1 as nat)
    } else {
        unary_bits(0) + low_bits(raw as u64, s.k0 as nat)
    }
}

/// The parameters after sending residual `e`.
pub open spec fn encode_advanced(s: RiceState, e: i32) -> RiceState {
    let value = zigzag_spec(e);
    advanced(s, is_high(s, value), raw_of(s, value))
}

fn shl_saturating(shift: u32) -> (r: u32)
    ensures
        r == saturating_pow2(shift as int),
{
    if shift >= 31 {
        0x8000_0000
    } else {
        1u32 << shift
    }
}

/// Fold `value` into a running sum and let its parameter follow.
fn adapt(k: u32, sum: u32, value: u32) -> (r: (u32, u32))
    requires
        k <= 32,
    ensures
        r.1 == adapted_sum(sum, value),
        r.0 == adapted_k(k, r.1),
{
    let sum_post: u32 = sum.wrapping_add(value).wrapping_sub(sum >> 4);
    let k_post: u32 = if k > 0 && sum_post < shl_saturating(k + 4) {
        k - 1
    } else if k < MAX_K && sum_post > shl_saturating(k + 5) {
        k + 1
    } else {
        k
    };
    (k_post, sum_post)
}

/// Move the parameters past a codeword; the result is its zigzagged value.
fn advance(state: &mut RiceState, high: bool, raw: u32) -> (value: u32)
    requires
        old(state).k0 <= 32,
        old(state).k1 <= 32,
    ensures
        value == coded_value(*old(state), high, raw),
        *final(state) == advanced(*old(state), high, raw),
{
    let mut value: u32 = raw;
    if high {
        let (k1, sum1) = adapt(state.k1, state.sum1, raw);
        state.k1 = k1;
        state.sum1 = sum1;
        value = value.wrapping_add(shl_saturating(state.k0));
    }
    let (k0, sum0) = adapt(state.k0, state.sum0, value);
    state.k0 = k0;
    state.sum0 = sum0;
    value
}

/// Decode one signed residual.
pub fn decode_one(reader: &mut BitReader<'_>, state: &mut RiceState) -> (r: Result<i32>)
    requires
        old(reader).wf(),
        old(state).k0 <= 32,
        old(state).k1 <= 32,
    ensures
        final(reader).wf(),
        final(reader).source() == old(reader).source(),
        final(reader).drawn() == drawn_by_codeword(
            old(reader)@,
            *old(state),
            old(reader).drawn(),
            old(reader).source().len(),
        ),
        match r {
            Ok(e) => match decode_step(old(reader)@, *old(state)) {
                Some((trace, rest)) => {
                    &&& e == trace.residual_signed
                    &&& *final(state) == trace.state_post()
                    &&& final(reader)@ == rest
                },
                None => false,
            },
            Err(e) => {
                &&& e == Error::Truncated
                &&& decode_step(old(reader)@, *old(state)) is None
                &&& *final(state) == *old(state)
                &&& final(reader)@ == broken_rest(old(reader)@)
            },
        },
{
    match decode_one_traced(reader, state) {
        Ok(trace) => Ok(trace.residual_signed),
        Err(e) => Err(e),
    }
}

/// Decode one residual and report every intermediate of the step.
pub fn decode_one_traced(reader: &mut BitReader<'_>, state: &mut RiceState) -> (r: Result<
    RiceTrace,
>)
    requires
        old(reader).wf(),
        old(state).k0 <= 32,
        old(state).k1 <= 32,
    ensures
        final(reader).wf(),
        final(reader).source() == old(reader).source(),
        final(reader).drawn() == drawn_by_codeword(
            old(reader)@,
            *old(state),
            old(reader).drawn(),
            old(reader).source().len(),
        ),
        match r {
            Ok(trace) => {
                &&& decode_step(old(reader)@, *old(state)) == Some((trace, final(reader)@))
                &&& *final(state) == trace.state_post()
            },
            Err(e) => {
                &&& e == Error::Truncated
                &&& decode_step(old(reader)@, *old(state)) is None
                &&& *final(state) == *old(state)
                &&& final(reader)@ == broken_rest(old(reader)@)
            },
        },
{
    let u: u32 = match reader.read_unary() {
        Ok(u) => u,
        Err(e) => {
            return Err(e);
        },
    };
    let high = u != 0;
    let k: u32 = if high {
        state.k1
    } else {
        state.k0
    };
    let tail: u32 = match reader.read_bits(k) {
        Ok(v) => v,
        Err(e) => {
            return Err(e);
        },
    };
    let raw: u32 = if high {
        (u - 1).wrapping_shl(k).wrapping_add(tail)
    } else {
        tail
    };
    let value: u32 = advance(state, high, raw);
    Ok(
        RiceTrace {
            raw_unary: u,
            mode_high: high,
            k_used: k,
            residual_signed: dezigzag(value),
            k0_post: state.k0,
            k1_post: state.k1,
            sum0_post: state.sum0,
            sum1_post: state.sum1,
        },
    )
}

/// Append the codeword for residual `e` and move the parameters past it.
pub fn rice_encode_one(writer: &mut BitWriter, state: &mut RiceState, e: i32)
    requires
        old(writer).wf(),
        old(state).wf(),
    ensures
        final(writer).wf(),
        final(state).wf(),
        final(writer)@ == old(writer)@ + codeword(*old(state), e),
        *final(state) == encode_advanced(*old(state), e),
{
    let value: u32 = zigzag(e);
    let bias: u32 = shl_saturating(state.k0);
    let ghost before = writer@;
    if value < bias {
        writer.put_unary(0);
        writer.put_bits(value, state.k0);
        advance(state, false, value);
    } else {
        let raw: u32 = value - bias;
        let k: u32 = state.k1;
        let prefix: u32 = raw >> k;
        proof {
            lemma_pow2_positive(old(state).k0);
            assert(prefix <= raw) by (bit_vector)
                requires
                    k <= 31,
                    prefix == raw >> k,
            ;
        }
        writer.put_unary(prefix + 1);
        writer.put_bits(raw, k);
        advance(state, true, raw);
    }
    assert(writer@ =~= before + codeword(*old(state), e));
}

/// Inverse zigzag: from unsigned value to signed residual.
pub fn dezigzag(value: u32) -> (r: i32)
    ensures
        r == dezigzag_spec(value),
{
    if value % 2 == 1 {
        (value.wrapping_add(1) / 2) as i32
    } else {
        -((value / 2) as i32)
    }
}

/// Zigzag: from signed residual to unsigned value.
pub fn zigzag(e: i32) -> (r: u32)
    ensures
        r == zigzag_spec(e),
{
    if e > 0 {
        (e as u32).wrapping_mul(2).wrapping_sub(1)
    } else {
        let magnitude: u32 = (-(e as i64)) as u32;
        magnitude.wrapping_mul(2)
    }
}

/// Zigzag and its inverse undo each other, on every residual but `i32::MIN`
/// and on every value but `u32::MAX`.
pub proof fn law_zigzag_round_trip(e: i32, v: u32)
    ensures
        e != i32::MIN ==> dezigzag_spec(zigzag_spec(e)) == e,
        v < u32::MAX ==> zigzag_spec(dezigzag_spec(v)) == v,
{
}

/// Neither parameter ever leaves `0..=MAX_K`, whatever is decoded.
pub proof fn law_parameters_bounded(bits: Seq<bool>, s: RiceState)
    requires
        s.wf(),
    ensures
        match decode_step(bits, s) {
            Some((trace, _)) => trace.state_post().wf(),
            None => true,
        },
{
}

/// Decoding a codeword gives back the residual it was made from, leaves the
/// decoder with the encoder's parameters, and consumes the codeword exactly.
#[verifier::rlimit(60)]
pub proof fn law_rice_round_trip(s: RiceState, e: i32, rest: Seq<bool>)
    requires
        s.wf(),
        e != i32::MIN,
    ensures
        match decode_step(codeword(s, e) + rest, s) {
            Some((trace, after)) => {
                &&& trace.residual_signed == e
                &&& trace.state_post() == encode_advanced(s, e)
                &&& after == rest
            },
            None => false,
        },
{
    let value = zigzag_spec(e);
    let high = is_high(s, value);
    let raw = raw_of(s, value);
    let k = if high {
        s.k1
    } else {
        s.k0
    };
    let prefix = if high {
        ((raw >> k) + 1) as nat
    } else {
        0
    };
    let tail = low_bits(raw as u64, k as nat);
    let bits = codeword(s, e) + rest;
    lemma_pow2_positive(s.k0);
    assert(bits =~= unary_bits(prefix) + (tail + rest));
    law_unary_round_trip(prefix, tail + rest);
    assert((tail + rest).take(k as int) =~= tail);
    assert((tail + rest).skip(k as int) =~= rest);
    let wide = raw as u64;
    lemma_low_bits_value(wide, k);
    let m = wide & (((1u64 << k) - 1) as u64);
    let t = m as u32;
    let p = raw >> k;
    assert(m <= 0xffff_ffff && p <= raw && (p << k) + t == raw && (p << k) <= raw) by (bit_vector)
        requires
            k <= 31,
            wide == raw as u64,
            m == wide & (((1u64 << k) - 1) as u64),
            t == m as u32,
            p == raw >> k,
    ;
    if !high {
        assert(m == wide) by (bit_vector)
            requires
                k <= 31,
                wide < (1u64 << k),
                m == wide & (((1u64 << k) - 1) as u64),
        ;
    }
}

/// The mode boundary is a power of two, never zero.
proof fn lemma_pow2_positive(k: u32)
    requires
        k <= 31,
    ensures
        saturating_pow2(k as int) >= 1,
        saturating_pow2(k as int) == 1u32 << k,
        saturating_pow2(k as int) == 1u64 << k,
{
    assert(1u32 << k >= 1 && 1u32 << k == 1u64 << k && 1u32 << 31u32 == 0x8000_0000u32)
        by (bit_vector)
        requires
            k <= 31,
    ;
}

/// `saturating_pow2` is the power of two up to `2^31`, and that from there on.
pub proof fn lemma_saturating_pow2(k: int)
    requires
        0 <= k,
    ensures
        k <= 31 ==> saturating_pow2(k) == pow2(k as nat),
        k >= 31 ==> saturating_pow2(k) == 0x8000_0000,
{
    lemma2_to64();
    if k < 31 {
        lemma_pow2_strictly_increases(k as nat, 31);
        vstd::bits::lemma_u32_shl_is_mul(1, k as u32);
    }
}

/// Both parameters start every frame at 10 and both sums at `2^14`.
pub proof fn law_rice_start()
    ensures
        RiceState::initial().k0 == 10,
        RiceState::initial().k1 == 10,
        RiceState::initial().sum0 == 0x4000,
        RiceState::initial().sum1 == 0x4000,
{
}

/// A running sum takes in the new value and loses a sixteenth of itself,
/// rounded down; the whole wraps to 32 bits.
pub proof fn law_sum_leaks_a_sixteenth(sum: u32, value: u32)
    ensures
        (adapted_sum(sum, value) - (sum + value - sum as int / 16)) % 0x1_0000_0000 == 0,
        sum + value - sum as int / 16 < 0x1_0000_0000 ==> adapted_sum(sum, value) == sum + value
            - sum as int / 16,
{
    lemma2_to64();
    vstd::bits::lemma_u32_shr_is_div(sum, 4);
}

/// A parameter follows its sum by one step at most: down where the sum is
/// below sixteen times the parameter's power of two, up where it is above
/// thirty-two times that, and never out of `0..=31`. Both thresholds are held
/// at `2^31`.
pub proof fn law_parameter_follows_sum(k: u32, sum: u32)
    requires
        k <= 31,
    ensures
        ({
            let unit = pow2(k as nat);
            let low = if 16 * unit < 0x8000_0000 { 16 * unit } else { 0x8000_0000 };
            let high = if 32 * unit < 0x8000_0000 { 32 * unit } else { 0x8000_0000 };
            &&& adapted_k(k, sum) == k - 1 <==> k > 0 && sum < low
            &&& adapted_k(k, sum) == k + 1 <==> k < 31 && sum > high
            &&& k - 1 <= adapted_k(k, sum) <= k + 1
        }),
{
    lemma2_to64();
    let unit = pow2(k as nat);
    vstd::arithmetic::power2::lemma_pow2_adds(k as nat, 4);
    vstd::arithmetic::power2::lemma_pow2_adds(k as nat, 5);
    lemma_saturating_pow2(k + 4);
    lemma_saturating_pow2(k + 5);
    if k + 4 < 31 {
        lemma_pow2_strictly_increases((k + 4) as nat, 31);
    } else if k + 4 > 31 {
        lemma_pow2_strictly_increases(31, (k + 4) as nat);
    }
    if k + 5 < 31 {
        lemma_pow2_strictly_increases((k + 5) as nat, 31);
    } else if k + 5 > 31 {
        lemma_pow2_strictly_increases(31, (k + 5) as nat);
    }
}

/// What a codeword looks like. The residual becomes `v`, with `0, 1, -1, 2,
/// -2, ...` in the places `0, 1, 2, 3, 4, ...`, and the one residual without
/// a place of its own in place `0`. A `v` below `2^k0` is a zero
/// bit and `k0` binary digits of `v`, lowest first. Any other loses `2^k0`
/// first; what is left is sent as one more one bit than `2^k1` goes into it,
/// a zero bit, and its `k1` lowest binary digits.
pub proof fn law_codeword_spells_residual(s: RiceState, e: i32)
    requires
        s.k0 <= 31,
        s.k1 <= 31,
    ensures
        ({
            let c = codeword(s, e);
            let v = if e > 0 { 2 * e - 1 } else if e == i32::MIN { 0 } else { -2 * e };
            if v < pow2(s.k0 as nat) {
                &&& c.len() == 1 + s.k0
                &&& !c[0]
                &&& forall|j: int|
                    0 <= j < s.k0 ==> (#[trigger] c[1 + j] <==> v / pow2(j as nat) as int % 2 == 1)
            } else {
                let r = v - pow2(s.k0 as nat);
                let q = r / pow2(s.k1 as nat) as int;
                &&& c.len() == q + 2 + s.k1
                &&& forall|i: int| 0 <= i <= q ==> #[trigger] c[i]
                &&& !c[q + 1]
                &&& forall|j: int|
                    0 <= j < s.k1 ==> (#[trigger] c[q + 2 + j] <==> r / pow2(j as nat) as int % 2
                        == 1)
            }
        }),
{
    let c = codeword(s, e);
    let v = zigzag_spec(e);
    let raw = raw_of(s, v);
    lemma_saturating_pow2(s.k0 as int);
    lemma_pow2_pos(s.k0 as nat);
    if is_high(s, v) {
        vstd::bits::lemma_u32_shr_is_div(raw, s.k1);
        let q = (raw >> s.k1) as int;
        let digits = low_bits(raw as u64, s.k1 as nat);
        assert(c =~= unary_bits((q + 1) as nat) + digits);
        assert forall|j: int| 0 <= j < s.k1 implies (#[trigger] c[q + 2 + j] <==> raw as int / pow2(
            j as nat,
        ) as int % 2 == 1) by {
            assert(c[q + 2 + j] == digits[j]);
            lemma_bit_is_digit(raw as u64, j);
        }
    } else {
        let digits = low_bits(raw as u64, s.k0 as nat);
        assert(c =~= unary_bits(0) + digits);
        assert forall|j: int| 0 <= j < s.k0 implies (#[trigger] c[1 + j] <==> v as int / pow2(
            j as nat,
        ) as int % 2 == 1) by {
            assert(c[1 + j] == digits[j]);
            lemma_bit_is_digit(raw as u64, j);
        }
    }
}

/// How sending a residual moves the parameters: the low ones take in `v`,
/// always; the high ones take in what is left of it after `2^k0`, and only
/// where the residual is sent in high mode.
pub proof fn law_encoder_adapts(s: RiceState, e: i32)
    requires
        s.k0 <= 31,
        s.k1 <= 31,
    ensures
        ({
            let p = encode_advanced(s, e);
            let v = if e > 0 { 2 * e - 1 } else if e == i32::MIN { 0 } else { -2 * e };
            let r = v - pow2(s.k0 as nat);
            &&& p.sum0 == adapted_sum(s.sum0, v as u32)
            &&& p.k0 == adapted_k(s.k0, p.sum0)
            &&& r < 0 ==> p.sum1 == s.sum1 && p.k1 == s.k1
            &&& r >= 0 ==> p.sum1 == adapted_sum(s.sum1, r as u32) && p.k1 == adapted_k(
                s.k1,
                p.sum1,
            )
        }),
{
    lemma_saturating_pow2(s.k0 as int);
    lemma_pow2_pos(s.k0 as nat);
}

/// What reading a codeword gives, for every codeword there can be: `n` one
/// bits, a zero bit and the `k` digits of `t`, where `n` is counted in 32
/// bits and `k` is `k0` after an empty prefix and `k1` after any other.
#[verifier::rlimit(60)]
pub proof fn law_decoder_reads_codeword(bits: Seq<bool>, s: RiceState, n: int, t: int)
    requires
        s.k0 <= 31,
        s.k1 <= 31,
        0 <= n < bits.len(),
        forall|i: int| 0 <= i < n ==> #[trigger] bits[i],
        !bits[n],
        ({
            let k = if n % 0x1_0000_0000 != 0 { s.k1 } else { s.k0 };
            &&& n + 1 + k <= bits.len()
            &&& 0 <= t < pow2(k as nat)
            &&& forall|j: int|
                0 <= j < k ==> (#[trigger] bits[n + 1 + j] <==> t / pow2(j as nat) as int % 2 == 1)
        }),
    ensures
        match decode_step(bits, s) {
            Some((trace, rest)) => {
                let u = n % 0x1_0000_0000;
                let k = if u != 0 { s.k1 } else { s.k0 };
                let raw = if u != 0 { ((u - 1) * pow2(k as nat) + t) % 0x1_0000_0000 } else { t };
                let v = if u != 0 { (raw + pow2(s.k0 as nat)) % 0x1_0000_0000 } else { raw };
                &&& rest == bits.skip(n + 1 + k)
                &&& trace.raw_unary == u && trace.mode_high == (u != 0) && trace.k_used == k
                &&& v == 0xFFFF_FFFF ==> trace.residual_signed == 0
                &&& v != 0xFFFF_FFFF && v % 2 == 1 ==> 2 * trace.residual_signed - 1 == v
                &&& v % 2 == 0 ==> -2 * trace.residual_signed == v
                &&& trace.sum0_post == adapted_sum(s.sum0, v as u32)
                &&& trace.k0_post == adapted_k(s.k0, trace.sum0_post)
                &&& u == 0 ==> trace.sum1_post == s.sum1 && trace.k1_post == s.k1
                &&& u != 0 ==> trace.sum1_post == adapted_sum(s.sum1, raw as u32) && trace.k1_post
                    == adapted_k(s.k1, trace.sum1_post)
            },
            None => false,
        },
{
    lemma2_to64();
    lemma_leading_ones_unique(bits, n as nat);
    let u = (n % 0x1_0000_0000) as u32;
    let k = if u != 0 { s.k1 } else { s.k0 };
    let rest = bits.skip(n + 1);
    let digits = rest.take(k as int);
    assert forall|j: int| 0 <= j < digits.len() implies (#[trigger] digits[j] <==> t / pow2(
        j as nat,
    ) as int % 2 == 1) by {
        assert(digits[j] == bits[n + 1 + j]);
    }
    law_digits_spell_number(digits, t);
    if k < 31 {
        lemma_pow2_strictly_increases(k as nat, 31);
    }
    lemma_saturating_pow2(s.k0 as int);
    if u != 0 {
        lemma_shl_wraps((u - 1) as u32, k);
        let shifted = ((u - 1) as u32).wrapping_shl(k);
        lemma_wrapped_sum(shifted, t as u32, (u - 1) * pow2(k as nat));
    }
    assert(rest.skip(k as int) =~= bits.skip(n + 1 + k));
}

/// A codeword is missing exactly where its prefix has no end or too few bits
/// follow it.
pub proof fn law_decoder_misses_broken_codeword(bits: Seq<bool>, s: RiceState, n: int)
    requires
        0 <= n <= bits.len(),
        forall|i: int| 0 <= i < n ==> #[trigger] bits[i],
        n < bits.len() ==> !bits[n],
    ensures
        decode_step(bits, s) is None <==> n == bits.len() || n + 1 + if n % 0x1_0000_0000 != 0 {
            s.k1
        } else {
            s.k0
        } > bits.len(),
{
    lemma_leading_ones_unique(bits, n as nat);
}

proof fn lemma_shl_wraps(x: u32, k: u32)
    requires
        k <= 31,
    ensures
        x.wrapping_shl(k) == (x * pow2(k as nat)) % 0x1_0000_0000,
{
    lemma2_to64();
    let w = x as u64;
    let d = k as u64;
    assert((x << k) as u64 == (w << d) % 0x1_0000_0000) by (bit_vector)
        requires
            w == x,
            d == k,
            k <= 31,
    ;
    if k < 31 {
        lemma_pow2_strictly_increases(k as nat, 31);
    }
    assert(w * pow2(k as nat) <= 0xFFFF_FFFF * 0x8000_0000) by (nonlinear_arith)
        requires
            w <= 0xFFFF_FFFF,
            pow2(k as nat) <= 0x8000_0000,
    ;
    vstd::bits::lemma_u64_shl_is_mul(w, d);
}

proof fn lemma_wrapped_sum(a: u32, t: u32, exact: int)
    requires
        a == exact % 0x1_0000_0000,
    ensures
        a.wrapping_add(t) == (exact + t) % 0x1_0000_0000,
{
}

/// The zigzag map in numbers, both ways.
pub proof fn law_zigzag_places(e: i32, v: u32)
    ensures
        e > 0 ==> zigzag_spec(e) == 2 * e - 1,
        i32::MIN < e <= 0 ==> zigzag_spec(e) == -2 * e,
        e == i32::MIN ==> zigzag_spec(e) == 0,
        v % 2 == 0 ==> -2 * dezigzag_spec(v) == v,
        v % 2 == 1 && v < u32::MAX ==> 2 * dezigzag_spec(v) - 1 == v,
        v == u32::MAX ==> dezigzag_spec(v) == 0,
{
}

} // verus!
