//! The mathematical model of a bit stream.
//!
//! A byte string is read least-significant bit first: bit `i` of the stream
//! is bit `i % 8` of byte `i / 8`. Everything the bit reader and the bit
//! writer promise is stated over the `Seq<bool>` this reading yields.

use vstd::arithmetic::div_mod::lemma_div_denominator;
use vstd::arithmetic::power2::{lemma2_to64, lemma_pow2_pos, lemma_pow2_unfold, pow2};
use vstd::prelude::*;

verus! {

/// Bit `j` of the word `w`, counted from the least significant.
pub open spec fn bit_at(w: u64, j: int) -> bool {
    (w >> (j as u64)) & 1 == 1
}

/// The `k` least significant bits of `w`, lowest first.
pub open spec fn low_bits(w: u64, k: nat) -> Seq<bool> {
    Seq::new(k, |j: int| bit_at(w, j))
}

/// The bits of a byte string, each byte lowest bit first.
pub open spec fn stream_bits(bytes: Seq<u8>) -> Seq<bool> {
    Seq::new(8 * bytes.len(), |i: int| bit_at(bytes[i / 8] as u64, i % 8))
}

/// The number whose binary digits are `s`, lowest digit first.
pub open spec fn bits_value(s: Seq<bool>) -> nat
    decreases s.len(),
{
    if s.len() == 0 {
        0
    } else {
        (if s[0] { 1nat } else { 0nat }) + 2 * bits_value(s.drop_first())
    }
}

/// How many `true`s `s` starts with.
pub open spec fn leading_ones(s: Seq<bool>) -> nat
    decreases s.len(),
{
    if s.len() > 0 && s[0] {
        1 + leading_ones(s.drop_first())
    } else {
        0
    }
}

/// `n` one bits followed by the terminating zero bit.
pub open spec fn unary_bits(n: nat) -> Seq<bool> {
    Seq::new(n + 1, |i: int| i < n)
}

/// `n` zero bits.
pub open spec fn zero_bits(n: nat) -> Seq<bool> {
    Seq::new(n, |i: int| false)
}

/// How many bits fill `n` bits up to a whole number of bytes.
pub open spec fn padding(n: nat) -> nat {
    if n % 8 == 0 {
        0
    } else {
        (8 - n % 8) as nat
    }
}

/// The shortest byte string that starts with the bits `s`; the rest of its
/// last byte is zero bits.
pub open spec fn pack_bits(s: Seq<bool>) -> Seq<u8> {
    let padded = s + zero_bits(padding(s.len()));
    Seq::new(padded.len() / 8, |i: int| bits_value(padded.subrange(8 * i, 8 * i + 8)) as u8)
}

/// `leading_ones` is the position of the first zero bit, or the length.
pub proof fn lemma_leading_ones(s: Seq<bool>)
    ensures
        leading_ones(s) <= s.len(),
        forall|i: int| 0 <= i < leading_ones(s) ==> s[i],
        leading_ones(s) < s.len() ==> !s[leading_ones(s) as int],
    decreases s.len(),
{
    if s.len() > 0 && s[0] {
        let t = s.drop_first();
        lemma_leading_ones(t);
        assert forall|i: int| 0 <= i < leading_ones(s) implies s[i] by {
            if i > 0 {
                assert(t[i - 1] == s[i]);
            }
        }
    }
}

/// Any `n` with `n` ones before a zero is `leading_ones`.
pub proof fn lemma_leading_ones_unique(s: Seq<bool>, n: nat)
    requires
        n <= s.len(),
        forall|i: int| 0 <= i < n ==> s[i],
        n < s.len() ==> !s[n as int],
    ensures
        leading_ones(s) == n,
{
    lemma_leading_ones(s);
    if leading_ones(s) < n {
        assert(s[leading_ones(s) as int]);
    } else if n < leading_ones(s) {
        assert(s[n as int]);
    }
}

/// A unary code is read back as its count, whatever follows.
pub proof fn law_unary_round_trip(n: nat, rest: Seq<bool>)
    ensures
        leading_ones(unary_bits(n) + rest) == n,
        (unary_bits(n) + rest).skip(n as int + 1) == rest,
{
    lemma_leading_ones_unique(unary_bits(n) + rest, n);
    assert((unary_bits(n) + rest).skip(n as int + 1) =~= rest);
}

/// The value of the low `k` bits of `w` is `w` masked to them.
pub proof fn lemma_low_bits_value(w: u64, k: u32)
    requires
        k <= 32,
    ensures
        bits_value(low_bits(w, k as nat)) == w & (((1u64 << k) - 1) as u64),
    decreases k,
{
    let s = low_bits(w, k as nat);
    if k == 0 {
        assert(w & (((1u64 << 0u32) - 1) as u64) == 0) by (bit_vector);
    } else {
        let k1 = (k - 1) as u32;
        lemma_low_bits_value(w >> 1, k1);
        assert(s.drop_first() =~= low_bits(w >> 1, k1 as nat)) by {
            assert forall|j: int| 0 <= j < k1 implies s.drop_first()[j] == low_bits(
                w >> 1,
                k1 as nat,
            )[j] by {
                lemma_shr_bit(w, 1, j);
            }
        }
        assert(w >> 0 == w) by (bit_vector);
        assert(w & (((1u64 << k) - 1) as u64) == (w & 1) + 2 * ((w >> 1) & (((1u64 << k1)
            - 1) as u64)) && (w & 1 == 0 || w & 1 == 1)) by (bit_vector)
            requires
                1 <= k <= 32,
                k1 == k - 1,
        ;
        assert(s[0] == bit_at(w, 0));
    }
}

/// A number written in `k` bits is read back from them, whatever follows.
pub proof fn law_field_round_trip(v: u32, k: u32, rest: Seq<bool>)
    requires
        k <= 32,
        (v as u64) < 1u64 << k,
    ensures
        bits_value((low_bits(v as u64, k as nat) + rest).take(k as int)) == v,
        (low_bits(v as u64, k as nat) + rest).skip(k as int) == rest,
{
    let w = v as u64;
    let field = low_bits(w, k as nat);
    lemma_low_bits_value(w, k);
    assert(w & (((1u64 << k) - 1) as u64) == w) by (bit_vector)
        requires
            k <= 32,
            w < 1u64 << k,
    ;
    assert((field + rest).take(k as int) =~= field);
    assert((field + rest).skip(k as int) =~= rest);
}

/// Bit `j` of the number spelled by up to eight digits is digit `j`.
pub proof fn lemma_value_bit(s: Seq<bool>, j: int)
    requires
        s.len() <= 8,
        0 <= j < s.len(),
    ensures
        bits_value(s) < 256,
        bit_at(bits_value(s) as u64, j) == s[j],
    decreases s.len(),
{
    lemma_value_bound(s);
    let t = s.drop_first();
    lemma_value_bound(t);
    let v = bits_value(s) as u64;
    let h = bits_value(t) as u64;
    assert(v / 2 == h && (v % 2 == 1) == s[0]);
    let a = j as u64;
    if j == 0 {
        assert((v >> 0) & 1 == v % 2) by (bit_vector);
    } else {
        lemma_value_bit(t, j - 1);
        let b = (j - 1) as u64;
        assert((v >> a) & 1 == (h >> b) & 1) by (bit_vector)
            requires
                h == v / 2,
                a < 8,
                a == b + 1,
        ;
    }
}

/// `n` binary digits stay below `2^n`; here for up to eight of them.
pub proof fn lemma_value_bound(s: Seq<bool>)
    requires
        s.len() <= 8,
    ensures
        bits_value(s) < 256,
        s.len() <= 7 ==> bits_value(s) < 128,
        s.len() <= 6 ==> bits_value(s) < 64,
        s.len() <= 5 ==> bits_value(s) < 32,
        s.len() <= 4 ==> bits_value(s) < 16,
        s.len() <= 3 ==> bits_value(s) < 8,
        s.len() <= 2 ==> bits_value(s) < 4,
        s.len() <= 1 ==> bits_value(s) < 2,
        s.len() == 0 ==> bits_value(s) == 0,
    decreases s.len(),
{
    if s.len() > 0 {
        lemma_value_bound(s.drop_first());
    }
}

/// A reader over packed bits sees the bits that were written, then zeros.
pub proof fn law_packed_bits_read_back(s: Seq<bool>)
    ensures
        stream_bits(pack_bits(s)) == s + zero_bits(padding(s.len())),
{
    let padded = s + zero_bits(padding(s.len()));
    let bytes = pack_bits(s);
    assert(padded.len() % 8 == 0);
    assert forall|i: int| 0 <= i < padded.len() implies stream_bits(bytes)[i] == padded[i] by {
        let digits = padded.subrange(8 * (i / 8), 8 * (i / 8) + 8);
        lemma_value_bit(digits, i % 8);
        assert(digits[i % 8] == padded[i]);
    }
    assert(stream_bits(bytes) =~= padded);
}

/// A byte string is determined by its bits.
pub proof fn lemma_stream_bits_injective(a: Seq<u8>, b: Seq<u8>)
    requires
        stream_bits(a) == stream_bits(b),
    ensures
        a == b,
{
    assert(stream_bits(a).len() == 8 * a.len() && stream_bits(b).len() == 8 * b.len());
    assert forall|i: int| 0 <= i < a.len() implies a[i] == b[i] by {
        let x = a[i] as u64;
        let y = b[i] as u64;
        assert(low_bits(x, 8) =~= low_bits(y, 8)) by {
            assert forall|j: int| 0 <= j < 8 implies bit_at(x, j) == bit_at(y, j) by {
                let k = 8 * i + j;
                assert(k / 8 == i && k % 8 == j);
                assert(stream_bits(a)[k] == bit_at(a[k / 8] as u64, k % 8));
                assert(stream_bits(b)[k] == bit_at(b[k / 8] as u64, k % 8));
            }
        }
        lemma_low_bits_value(x, 8);
        lemma_low_bits_value(y, 8);
        assert(x & (((1u64 << 8u32) - 1) as u64) == x && y & (((1u64 << 8u32) - 1) as u64) == y)
            by (bit_vector)
            requires
                x < 256,
                y < 256,
        ;
    }
    assert(a =~= b);
}

/// The zero word has no set bit.
pub proof fn lemma_zero_word()
    ensures
        forall|j: int| 0 <= j < 64 ==> !bit_at(0, j),
{
    assert forall|j: int| 0 <= j < 64 implies !bit_at(0, j) by {
        let a = j as u64;
        assert((0u64 >> a) & 1 == 0) by (bit_vector);
    }
}

/// Masking to the low `k` bits keeps those and clears the rest.
pub proof fn lemma_mask_bit(w: u64, k: u32, j: int)
    requires
        0 <= j < 64,
        k < 64,
    ensures
        bit_at(w & (((1u64 << k) - 1) as u64), j) == (j < k && bit_at(w, j)),
{
    let a = j as u64;
    assert(((w & (((1u64 << k) - 1) as u64)) >> a) & 1 == if a < k {
        (w >> a) & 1
    } else {
        0
    }) by (bit_vector)
        requires
            k < 64,
            a < 64,
    ;
}

/// Shifting right by `k` moves bit `j + k` to place `j`.
pub proof fn lemma_shr_bit(w: u64, k: u32, j: int)
    requires
        0 <= j,
        k < 64,
        j + k < 64,
    ensures
        bit_at(w >> k, j) == bit_at(w, j + k),
{
    let a = j as u64;
    let b = (j + k) as u64;
    assert(((w >> k) >> a) & 1 == (w >> b) & 1) by (bit_vector)
        requires
            k < 64,
            b < 64,
            b == a + k,
    ;
}

/// The bits a right shift brings in at the top are zero.
pub proof fn lemma_shr_bit_high(w: u64, k: u32, j: int)
    requires
        0 <= j < 64,
        k < 64,
        j + k >= 64,
    ensures
        !bit_at(w >> k, j),
{
    let a = j as u64;
    assert(((w >> k) >> a) & 1 == 0) by (bit_vector)
        requires
            k < 64,
            a < 64,
            a + k >= 64,
    ;
}

/// Bit `j` of `w | (x << k)`.
pub proof fn lemma_or_shl_bit(w: u64, x: u64, k: u32, j: int)
    requires
        0 <= j < 64,
        k < 64,
    ensures
        bit_at(w | (x << k), j) == (bit_at(w, j) || (j >= k && bit_at(x, j - k))),
{
    let a = j as u64;
    if j >= k {
        let b = (j - k) as u64;
        assert(((w | (x << k)) >> a) & 1 == 1 <==> ((w >> a) & 1 == 1 || (x >> b) & 1 == 1))
            by (bit_vector)
            requires
                k < 64,
                a < 64,
                b == a - k,
        ;
    } else {
        assert(((w | (x << k)) >> a) & 1 == (w >> a) & 1) by (bit_vector)
            requires
                k < 64,
                a < k,
        ;
    }
}

/// A byte widened to a word has no bits above the eighth.
pub proof fn lemma_byte_high_bits(b: u8, j: int)
    requires
        8 <= j < 64,
    ensures
        !bit_at(b as u64, j),
{
    let w = b as u64;
    let a = j as u64;
    assert((w >> a) & 1 == 0) by (bit_vector)
        requires
            w < 256,
            8 <= a < 64,
    ;
}

/// The bits of one more byte.
pub proof fn lemma_stream_bits_push(a: Seq<u8>, b: u8)
    ensures
        stream_bits(a.push(b)) == stream_bits(a) + low_bits(b as u64, 8),
{
    assert(a.push(b) =~= a + seq![b]);
    lemma_stream_bits_concat(a, seq![b]);
    assert(stream_bits(seq![b]) =~= low_bits(b as u64, 8));
}

/// The bits of a concatenation are the bits of its parts in turn.
pub proof fn lemma_stream_bits_concat(a: Seq<u8>, b: Seq<u8>)
    ensures
        stream_bits(a + b) == stream_bits(a) + stream_bits(b),
{
    assert forall|i: int| 0 <= i < 8 * (a.len() + b.len()) implies stream_bits(a + b)[i] == (
    stream_bits(a) + stream_bits(b))[i] by {
        if i < 8 * a.len() {
            assert((a + b)[i / 8] == a[i / 8]);
        } else {
            let k = i - 8 * a.len();
            assert(i / 8 == a.len() + k / 8 && i % 8 == k % 8);
            assert((a + b)[i / 8] == b[k / 8]);
        }
    }
    assert(stream_bits(a + b) =~= stream_bits(a) + stream_bits(b));
}

/// A power of two is not zero.
pub proof fn lemma_power_positive(k: u32)
    ensures
        k < 64 ==> 1u64 << k >= 1,
        k < 32 ==> 1u32 << k >= 1,
{
    assert((k < 64 ==> 1u64 << k >= 1) && (k < 32 ==> 1u32 << k >= 1)) by (bit_vector);
}

/// The lowest byte of a word, masked in either spelling.
pub proof fn lemma_low_byte(w: u64)
    ensures
        w & 0xFF < 256,
        w & 0xFF == w & (((1u64 << 8u32) - 1) as u64),
{
    assert(w & 0xFF < 256 && w & 0xFF == w & (((1u64 << 8u32) - 1) as u64)) by (bit_vector);
}

/// An arithmetic right shift divides and rounds down.
pub proof fn lemma_shift_rounds_down(x: i32)
    ensures
        32 * (x >> 5) <= x < 32 * (x >> 5) + 32,
        512 * (x >> 9) <= x < 512 * (x >> 9) + 512,
        1024 * (x >> 10) <= x < 1024 * (x >> 10) + 1024,
{
    assert(32 * (x >> 5) <= x && x < 32 * (x >> 5) + 32 && 512 * (x >> 9) <= x && x < 512 * (x >> 9)
        + 512 && 1024 * (x >> 10) <= x && x < 1024 * (x >> 10) + 1024) by (bit_vector);
}

/// Bit `j` of a word is the last binary digit of the word divided by `2^j`.
pub proof fn lemma_bit_is_digit(w: u64, j: int)
    requires
        0 <= j < 64,
    ensures
        bit_at(w, j) <==> w as int / pow2(j as nat) as int % 2 == 1,
{
    let a = j as u64;
    let x = w >> a;
    vstd::bits::lemma_u64_shr_is_div(w, a);
    assert(x & 1 == x % 2) by (bit_vector);
}

/// How bytes are read as bits: eight to a byte, and bit `i` of the stream is
/// binary digit `i % 8`, lowest first, of byte `i / 8`.
pub proof fn law_bytes_are_read_lowest_bit_first(bytes: Seq<u8>, i: int)
    requires
        0 <= i < 8 * bytes.len(),
    ensures
        stream_bits(bytes).len() == 8 * bytes.len(),
        stream_bits(bytes)[i] <==> bytes[i / 8] as int / pow2((i % 8) as nat) as int % 2 == 1,
{
    lemma_bit_is_digit(bytes[i / 8] as u64, i % 8);
}

/// How bits are packed into bytes: as many bytes as it takes, each bit the
/// binary digit of its place, lowest first, and zeros in the places left.
pub proof fn law_bits_are_packed_lowest_first(s: Seq<bool>, i: int)
    requires
        0 <= i < 8 * pack_bits(s).len(),
    ensures
        8 * pack_bits(s).len() - 8 < s.len() <= 8 * pack_bits(s).len(),
        pack_bits(s)[i / 8] as int / pow2((i % 8) as nat) as int % 2 == 1 <==> i < s.len() && s[i],
{
    law_packed_bits_read_back(s);
    law_bytes_are_read_lowest_bit_first(pack_bits(s), i);
    let padded = s + zero_bits(padding(s.len()));
    assert(stream_bits(pack_bits(s))[i] == padded[i]);
    assert(padded[i] == (i < s.len() && s[i]));
}

/// The number that binary digits spell, lowest first, is the one number below
/// `2^n` with those digits.
pub proof fn law_digits_spell_number(s: Seq<bool>, t: int)
    requires
        0 <= t < pow2(s.len()),
        forall|j: int| 0 <= j < s.len() ==> (#[trigger] s[j] <==> t / pow2(j as nat) as int % 2 == 1),
    ensures
        bits_value(s) == t,
    decreases s.len(),
{
    lemma2_to64();
    if s.len() > 0 {
        let rest = s.drop_first();
        lemma_pow2_unfold(s.len());
        assert forall|j: int| 0 <= j < rest.len() implies (#[trigger] rest[j] <==> (t / 2) / pow2(
            j as nat,
        ) as int % 2 == 1) by {
            assert(rest[j] == s[j + 1]);
            lemma_pow2_unfold((j + 1) as nat);
            lemma_pow2_pos(j as nat);
            lemma_div_denominator(t, 2, pow2(j as nat) as int);
        }
        law_digits_spell_number(rest, t / 2);
        assert(s[0] <==> t / pow2(0) as int % 2 == 1);
    }
}

} // verus!
