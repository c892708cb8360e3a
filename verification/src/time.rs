//! Conversion between sample counts and clock time, in exact integer
//! arithmetic at nanosecond grain.

use core::time::Duration;
use vstd::prelude::*;

verus! {

/// The length of a duration in nanoseconds, as `Duration::as_nanos` gives it.
pub uninterp spec fn duration_nanos(d: Duration) -> nat;

/// `Duration::as_nanos` returns the total number of nanoseconds contained in
/// the duration.
pub assume_specification[ Duration::as_nanos ](d: &Duration) -> (r: u128)
    ensures
        r == duration_nanos(*d),
;

/// `Duration::new` makes a duration of that many whole seconds and additional
/// nanoseconds. Only a fraction below one second is handed to it, so nothing
/// carries over into the seconds.
pub assume_specification[ Duration::new ](secs: u64, nanos: u32) -> (r: Duration)
    requires
        nanos < 1_000_000_000,
    ensures
        duration_nanos(r) == secs * 1_000_000_000 + nanos,
;

/// The index of the sample playing at time `nanos`; `0` for a rate of zero.
pub open spec fn sample_at(nanos: nat, sample_rate: u32) -> nat {
    if sample_rate == 0 {
        0
    } else {
        nanos * sample_rate as nat / 1_000_000_000
    }
}

/// The time at which sample `n` starts, in whole nanoseconds rounded down;
/// `0` for a rate of zero.
pub open spec fn nanos_of(n: nat, sample_rate: u32) -> nat {
    if sample_rate == 0 {
        0
    } else {
        n * 1_000_000_000 / sample_rate as nat
    }
}

/// Convert a clock time to the index of the sample playing then, held at
/// `u64::MAX` where it would not fit.
pub fn duration_to_sample_index(time: Duration, sample_rate: u32) -> (r: u64)
    ensures
        r == if sample_at(duration_nanos(time), sample_rate) > u64::MAX {
            u64::MAX as nat
        } else {
            sample_at(duration_nanos(time), sample_rate)
        },
{
    if sample_rate == 0 {
        return 0;
    }
    let ns: u128 = time.as_nanos();
    match ns.checked_mul(sample_rate as u128) {
        Some(product) => {
            let idx: u128 = product / 1_000_000_000;
            if idx > u64::MAX as u128 {
                u64::MAX
            } else {
                idx as u64
            }
        },
        None => u64::MAX,
    }
}

/// Convert a per-channel sample count to the time it plays for.
pub fn samples_to_duration(samples: u64, sample_rate: u32) -> (r: Duration)
    ensures
        duration_nanos(r) == nanos_of(samples as nat, sample_rate),
{
    if sample_rate == 0 {
        return Duration::new(0, 0);
    }
    let rate: u64 = sample_rate as u64;
    let secs: u64 = samples / rate;
    let rem: u64 = samples % rate;
    proof {
        assert(rem * 1_000_000_000 < 0x1_0000_0000 * 1_000_000_000);
        lemma_split_seconds(samples as int, rate as int);
    }
    let nanos: u64 = rem * 1_000_000_000 / rate;
    Duration::new(secs, nanos as u32)
}

/// Whole seconds and the fraction of a second add up to the total.
proof fn lemma_split_seconds(n: int, rate: int)
    requires
        0 <= n,
        0 < rate,
    ensures
        0 <= (n % rate) * 1_000_000_000 / rate < 1_000_000_000,
        n * 1_000_000_000 / rate == (n / rate) * 1_000_000_000 + (n % rate) * 1_000_000_000 / rate,
{
    let q = n / rate;
    let m = n % rate;
    let k = 1_000_000_000int;
    assert(n == q * rate + m) by (nonlinear_arith)
        requires
            q == n / rate,
            m == n % rate,
            rate > 0,
    ;
    assert(n * k == (q * k) * rate + m * k) by (nonlinear_arith)
        requires
            n == q * rate + m,
    ;
    let f = m * k / rate;
    vstd::arithmetic::div_mod::lemma_fundamental_div_mod(m * k, rate);
    assert(n * k == (q * k + f) * rate + (m * k) % rate) by (nonlinear_arith)
        requires
            n * k == (q * k) * rate + m * k,
            m * k == rate * f + (m * k) % rate,
    ;
    vstd::arithmetic::div_mod::lemma_fundamental_div_mod_converse(
        n * k,
        rate,
        q * k + f,
        (m * k) % rate,
    );
    assert(0 <= f < k) by (nonlinear_arith)
        requires
            f == m * k / rate,
            0 <= m < rate,
            k == 1_000_000_000,
    ;
}

/// Later times never map to earlier samples.
pub proof fn law_time_to_sample_monotone(a: nat, b: nat, sample_rate: u32)
    requires
        a <= b,
    ensures
        sample_at(a, sample_rate) <= sample_at(b, sample_rate),
{
    if sample_rate > 0 {
        let r = sample_rate as int;
        assert(a * r <= b * r) by (nonlinear_arith)
            requires
                a <= b,
                r >= 0,
        ;
        vstd::arithmetic::div_mod::lemma_div_is_ordered(a * r, b * r, 1_000_000_000);
    }
}

/// Going from a sample count to a time and back loses at most one sample,
/// for every sample rate that fits the nanosecond grain.
pub proof fn law_sample_time_round_trip(n: nat, sample_rate: u32)
    requires
        0 < sample_rate <= 1_000_000_000,
    ensures
        n - 1 <= sample_at(nanos_of(n, sample_rate), sample_rate) <= n,
{
    let r = sample_rate as int;
    let k = 1_000_000_000int;
    let t = n * k / r;
    vstd::arithmetic::div_mod::lemma_fundamental_div_mod(n * k, r);
    let m = (n * k) % r;
    assert(t * r == n * k - m && 0 <= m < r) by (nonlinear_arith)
        requires
            n * k == r * t + m,
            m == (n * k) % r,
            r > 0,
    ;
    assert((n - 1) * k <= t * r <= n * k) by (nonlinear_arith)
        requires
            t * r == n * k - m,
            0 <= m < r <= k,
    ;
    vstd::arithmetic::div_mod::lemma_div_is_ordered((n - 1) * k, t * r, k);
    vstd::arithmetic::div_mod::lemma_div_is_ordered(t * r, n * k, k);
}

/// Consecutive samples start one sample period apart, rounded to whole
/// nanoseconds either way.
pub proof fn law_sample_period(n: nat, sample_rate: u32)
    requires
        sample_rate > 0,
    ensures
        1_000_000_000nat / sample_rate as nat <= nanos_of(n + 1, sample_rate) - nanos_of(
            n,
            sample_rate,
        ) <= 1_000_000_000nat / sample_rate as nat + 1,
{
    let r = sample_rate as int;
    let k = 1_000_000_000int;
    let a = n * k;
    let b = (n + 1) * k;
    assert(b == a + k) by (nonlinear_arith)
        requires
            a == n * k,
            b == (n + 1) * k,
    ;
    let (qa, ra) = (a / r, a % r);
    let (qb, rb) = (b / r, b % r);
    let (qk, rk) = (k / r, k % r);
    vstd::arithmetic::div_mod::lemma_fundamental_div_mod(a, r);
    vstd::arithmetic::div_mod::lemma_fundamental_div_mod(b, r);
    vstd::arithmetic::div_mod::lemma_fundamental_div_mod(k, r);
    assert(qk <= qb - qa <= qk + 1) by (nonlinear_arith)
        requires
            a == r * qa + ra,
            b == r * qb + rb,
            k == r * qk + rk,
            b == a + k,
            0 <= ra < r,
            0 <= rb < r,
            0 <= rk < r,
    ;
}

/// The sample playing at a time has started and the next one has not: its
/// index is the time in samples, rounded down. At a rate of zero it is zero.
pub proof fn law_sample_is_playing(nanos: nat, sample_rate: u32)
    ensures
        sample_rate == 0 ==> sample_at(nanos, sample_rate) == 0,
        sample_rate > 0 ==> sample_at(nanos, sample_rate) * 1_000_000_000 <= nanos * sample_rate
            < (sample_at(nanos, sample_rate) + 1) * 1_000_000_000,
{
    let x = nanos * sample_rate as nat;
    assert(x as int == nanos * sample_rate);
}

/// A sample starts at its index divided by the rate, in nanoseconds rounded
/// down. At a rate of zero that is zero.
pub proof fn law_sample_starts_on_time(n: nat, sample_rate: u32)
    ensures
        sample_rate == 0 ==> nanos_of(n, sample_rate) == 0,
        sample_rate > 0 ==> nanos_of(n, sample_rate) * sample_rate <= n * 1_000_000_000 < (nanos_of(
            n,
            sample_rate,
        ) + 1) * sample_rate,
{
    if sample_rate > 0 {
        let r = sample_rate as int;
        let q = nanos_of(n, sample_rate) as int;
        vstd::arithmetic::div_mod::lemma_fundamental_div_mod((n * 1_000_000_000) as int, r);
        vstd::arithmetic::mul::lemma_mul_is_commutative(r, q);
        vstd::arithmetic::mul::lemma_mul_is_distributive_add_other_way(r, q, 1);
    }
}

} // verus!
