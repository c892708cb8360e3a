//! LSB-first bit reader over a frame body.
//!
//! A 64-bit cache holds the next bits of the body; whole bytes move into it
//! as it drains. The reader's view is the sequence of bits still to come.

use crate::bits::{bit_at, bits_value, leading_ones, low_bits, stream_bits};
use crate::bits::{lemma_byte_high_bits, lemma_leading_ones, lemma_leading_ones_unique};
use crate::bits::{lemma_low_bits_value, lemma_power_positive};
use crate::bits::{lemma_or_shl_bit, lemma_shr_bit, lemma_shr_bit_high, lemma_zero_word};
use crate::error::{Error, Result};
use vstd::prelude::*;

verus! {

/// Streaming bit reader. Bits come out of each byte lowest first.
pub struct BitReader<'a> {
    body: &'a [u8],
    pos: usize,
    bcache: u64,
    bcount: u32,
}

impl<'a> View for BitReader<'a> {
    type V = Seq<bool>;

    /// The bits not yet consumed.
    closed spec fn view(&self) -> Seq<bool> {
        stream_bits(self.body@).skip(8 * self.pos - self.bcount)
    }
}

impl<'a> BitReader<'a> {
    /// The cache's low `bcount` bits are the next bits of the stream. Bits
    /// above them may be set, but only where the stream has a one bit too,
    /// so loading a byte over them changes nothing.
    pub closed spec fn wf(&self) -> bool {
        &&& self.bcount < 64
        &&& self.pos <= self.body@.len()
        &&& self.bcount <= 8 * self.pos
        &&& cache_matches(self.body@, 8 * self.pos - self.bcount, self.bcache, self.bcount as int)
    }

    /// The whole body the reader was made over.
    pub closed spec fn source(&self) -> Seq<u8> {
        self.body@
    }

    /// How many bytes of the body have been moved into the cache.
    pub closed spec fn drawn(&self) -> nat {
        self.pos as nat
    }

    /// How many bits have been consumed.
    pub open spec fn position(&self) -> int {
        8 * self.source().len() - self@.len()
    }

    /// A reader at the first bit of `body`.
    pub fn new(body: &'a [u8]) -> (r: Self)
        ensures
            r.wf(),
            r@ == stream_bits(body@),
            r.source() == body@,
            r.drawn() == 0,
    {
        let r = BitReader { body, pos: 0, bcache: 0, bcount: 0 };
        proof {
            lemma_zero_word();
            assert(stream_bits(body@).skip(0) =~= stream_bits(body@));
        }
        r
    }

    /// How many bytes of the body have been moved into the cache. They cover
    /// every consumed bit and fewer than 64 bits beyond.
    pub fn bytes_consumed(&self) -> (r: usize)
        requires
            self.wf(),
        ensures
            r == self.drawn(),
            r <= self.source().len(),
            self.position() <= 8 * r < self.position() + 64,
    {
        self.pos
    }

    /// Move whole bytes into the cache until it holds at least 56 bits or
    /// the body is exhausted.
    fn refill(&mut self)
        requires
            old(self).wf(),
        ensures
            final(self).wf(),
            final(self)@ == old(self)@,
            final(self).source() == old(self).source(),
            final(self).drawn() == refilled(
                old(self).drawn(),
                old(self).source().len(),
                old(self).bcount as int,
            ),
            final(self).bcount >= 56 || final(self)@.len() == final(self).bcount,
            final(self).bcount as int <= final(self)@.len(),
    {
        if self.bcount >= 56 {
            return ;
        }
        let ghost start: int = 8 * self.pos - self.bcount;
        if self.body.len() - self.pos >= 8 {
            let w: u64 = self.load_word();
            let count: u32 = self.bcount;
            let spare: u32 = 63 - count;
            let step: u32 = spare >> 3;
            let filled: u32 = count | 56;
            assert(filled == count + 8 * step && step == (63 - count) / 8 && step <= 7 && 56
                <= filled < 64) by (bit_vector)
                requires
                    count < 56,
                    spare == 63 - count,
                    step == spare >> 3,
                    filled == count | 56,
            ;
            proof {
                lemma_load(self.body@, start, self.bcache, count, w, 64);
            }
            self.bcache = self.bcache | (w << count);
            self.pos = self.pos + step as usize;
            self.bcount = filled;
            proof {
                lemma_more_known(self.body@, start, self.bcache, count + 8 * step);
            }
        } else {
            while self.bcount < 56 && self.pos < self.body.len()
                invariant
                    self.wf(),
                    self@ == old(self)@,
                    self.body@ == old(self).body@,
                    8 * self.pos - self.bcount == start,
                    old(self).pos <= self.pos,
                    old(self).bcount < 56,
                    8 * old(self).pos - old(self).bcount == start,
                decreases self.body@.len() - self.pos,
            {
                let b: u64 = self.body[self.pos] as u64;
                proof {
                    lemma_byte_bits(self.body@, self.pos as int);
                    lemma_load(self.body@, start, self.bcache, self.bcount, b, 8);
                }
                self.bcache = self.bcache | (b << self.bcount);
                self.pos = self.pos + 1;
                self.bcount = self.bcount + 8;
            }
        }
    }

    /// The next eight bytes as one little-endian word.
    fn load_word(&self) -> (w: u64)
        requires
            self.pos + 8 <= self.body.len(),
        ensures
            word_matches(self.body@, 8 * self.pos, w, 64),
    {
        let mut w: u64 = 0;
        let mut i: u32 = 0;
        proof {
            lemma_zero_word();
        }
        while i < 8
            invariant
                i <= 8,
                self.pos + 8 <= self.body.len(),
                word_matches(self.body@, 8 * self.pos, w, 8 * i),
            decreases 8 - i,
        {
            let b: u64 = self.body[self.pos + i as usize] as u64;
            let ghost w0 = w;
            w = w | (b << (8 * i));
            proof {
                lemma_byte_bits(self.body@, self.pos + i);
                assert forall|j: int| 0 <= j < 64 implies bit_at(w, j) == (j < 8 * (i + 1)
                    && stream_bits(self.body@)[8 * self.pos + j]) by {
                    lemma_or_shl_bit(w0, b, (8 * i) as u32, j);
                    if j >= 8 * i {
                        assert(bit_at(b, j - 8 * i) == (j - 8 * i < 8 && stream_bits(
                            self.body@,
                        )[8 * (self.pos + i) + (j - 8 * i)]));
                    }
                }
            }
            i = i + 1;
        }
        w
    }

    /// Read `k` bits, lowest first, as an unsigned number. Fewer than `k`
    /// bits left is `Error::Truncated`, and consumes nothing. The cache is
    /// refilled where it holds fewer than `k` bits.
    pub fn read_bits(&mut self, k: u32) -> (r: Result<u32>)
        requires
            old(self).wf(),
            k <= 32,
        ensures
            final(self).wf(),
            final(self).source() == old(self).source(),
            final(self).drawn() == drawn_by_bits(
                old(self).drawn(),
                old(self).source().len(),
                old(self).position(),
                k as int,
            ),
            match r {
                Ok(v) => {
                    &&& k <= old(self)@.len()
                    &&& v == bits_value(old(self)@.take(k as int))
                    &&& final(self)@ == old(self)@.skip(k as int)
                },
                Err(e) => {
                    &&& k > old(self)@.len()
                    &&& e == Error::Truncated
                    &&& final(self)@ == old(self)@
                },
            },
    {
        if k == 0 {
            proof {
                assert(self@.skip(0) =~= self@);
            }
            return Ok(0);
        }
        if self.bcount < k {
            self.refill();
            if self.bcount < k {
                return Err(Error::Truncated);
            }
        }
        proof {
            lemma_power_positive(k);
        }
        let word: u64 = self.bcache & ((1u64 << k) - 1);
        let v: u32 = word as u32;
        let ghost cache = self.bcache;
        let ghost before = *self;
        proof {
            assert(word <= 0xffff_ffff) by (bit_vector)
                requires
                    0 < k <= 32,
                    word == cache & (((1u64 << k) - 1) as u64),
            ;
            lemma_low_bits_value(cache, k);
            assert(self@.take(k as int) =~= low_bits(cache, k as nat));
            lemma_drop(self.body@, 8 * self.pos - self.bcount, cache, self.bcount as int, k);
        }
        self.bcache = self.bcache >> k;
        self.bcount = self.bcount - k;
        proof {
            assert(before@.skip(k as int) =~= self@);
        }
        Ok(v)
    }

    /// Read a unary code: the count of one bits before the terminating
    /// zero bit, modulo 2^32. A stream without a terminator is
    /// `Error::Truncated`, and everything is consumed. The cache is refilled
    /// whenever it runs empty.
    #[verifier::rlimit(60)]
    pub fn read_unary(&mut self) -> (r: Result<u32>)
        requires
            old(self).wf(),
        ensures
            final(self).wf(),
            final(self).source() == old(self).source(),
            final(self).drawn() == drawn_by_unary(
                old(self).drawn(),
                old(self).source().len(),
                old(self).position() + leading_ones(old(self)@),
            ),
            match r {
                Ok(u) => {
                    &&& leading_ones(old(self)@) < old(self)@.len()
                    &&& u == leading_ones(old(self)@) % 0x1_0000_0000
                    &&& final(self)@ == old(self)@.skip(leading_ones(old(self)@) as int + 1)
                },
                Err(e) => {
                    &&& leading_ones(old(self)@) == old(self)@.len()
                    &&& e == Error::Truncated
                    &&& final(self)@ == Seq::<bool>::empty()
                },
            },
    {
        let mut count: u32 = 0;
        let ghost mut n: nat = 0;
        let ghost all = self@;
        let ghost start0 = self.position();
        assert(all.skip(0) =~= all);
        loop
            invariant
                self.wf(),
                self.source() == old(self).source(),
                all == old(self)@,
                n <= all.len(),
                count as int == n as int % 0x1_0000_0000,
                self@ == all.skip(n as int),
                forall|i: int| 0 <= i < n ==> all[i],
                n <= leading_ones(all),
                start0 == old(self).position(),
                drawn_by_unary(
                    self.drawn(),
                    self.source().len(),
                    start0 + leading_ones(all),
                ) == drawn_by_unary(
                    old(self).drawn(),
                    old(self).source().len(),
                    start0 + leading_ones(all),
                ),
            decreases all.len() - n,
        {
            if self.bcount == 0 {
                self.refill();
                if self.bcount == 0 {
                    proof {
                        lemma_leading_ones_unique(all, n);
                        assert(self@ =~= Seq::<bool>::empty());
                    }
                    return Err(Error::Truncated);
                }
            }
            let run: u32 = self.bcache.trailing_ones();
            let ghost cache = self.bcache;
            let ghost start: int = 8 * self.pos - self.bcount;
            let ghost before = *self;
            proof {
                assert(self@.len() == 8 * self.body@.len() - start);
                assert(start == start0 + n);
                assert(drawn_by_unary(
                    self.drawn(),
                    self.source().len(),
                    start0 + leading_ones(all),
                ) == drawn_by_unary(
                    old(self).drawn(),
                    old(self).source().len(),
                    start0 + leading_ones(all),
                ));
                assert(self.bcount <= all.len() - n);
                vstd::std_specs::bits::axiom_u64_trailing_ones(cache);
                assert forall|j: int| 0 <= j < run implies bit_at(cache, j) by {
                    let a = j as u64;
                    assert((cache >> a) & 1 == 1);
                }
                assert(run < 64 ==> !bit_at(cache, run as int));
                assert forall|j: int| 0 <= j < self.bcount implies #[trigger] all[n + j] == bit_at(
                    cache,
                    j,
                ) by {
                    assert(self@[j] == all[n + j]);
                }
            }
            if run < self.bcount {
                count = count.wrapping_add(run);
                proof {
                    lemma_drop(self.body@, start, cache, self.bcount as int, (run + 1) as u32);
                    assert forall|i: int| 0 <= i < n + run implies all[i] by {
                        if i >= n {
                            assert(all[n + (i - n)] == bit_at(cache, i - n));
                        }
                    }
                    assert(!all[n + run]);
                    lemma_leading_ones_unique(all, (n + run) as nat);
                }
                self.bcache = self.bcache >> (run + 1);
                self.bcount = self.bcount - (run + 1);
                proof {
                    assert(self@ =~= before@.skip(run as int + 1));
                    assert(self@ =~= all.skip((n + run) as int + 1));
                }
                return Ok(count);
            }
            let held: u32 = self.bcount;
            count = count.wrapping_add(held);
            self.bcache = 0;
            self.bcount = 0;
            proof {
                lemma_zero_word();
                assert forall|i: int| 0 <= i < n + held implies all[i] by {
                    if i >= n {
                        assert(all[n + (i - n)] == bit_at(cache, i - n));
                    }
                }
                assert(self@ =~= before@.skip(held as int));
                assert(self@ =~= all.skip((n + held) as int));
                lemma_leading_ones(all);
                n = n + held as nat;
            }
        }
    }
}

/// Bytes drawn after a refill of a cache holding `cached` bits: enough for 56
/// bits, or all there are.
pub open spec fn refilled(drawn: nat, len: nat, cached: int) -> nat {
    if cached >= 56 {
        drawn
    } else if drawn + (63 - cached) / 8 <= len {
        (drawn + (63 - cached) / 8) as nat
    } else {
        len
    }
}

/// Bytes drawn after a field of `k` bits has been read at bit `position`.
pub open spec fn drawn_by_bits(drawn: nat, len: nat, position: int, k: int) -> nat {
    let cached = 8 * drawn - position;
    if cached < k {
        refilled(drawn, len, cached)
    } else {
        drawn
    }
}

/// Bytes drawn after a unary code has been read whose end is bit `end`, or
/// the end of the body where it has none: the cache is refilled from empty
/// until that bit is in it.
pub open spec fn drawn_by_unary(drawn: nat, len: nat, end: int) -> nat
    decreases len - drawn,
{
    if end < 8 * drawn || drawn >= len {
        drawn
    } else {
        drawn_by_unary(refilled(drawn, len, 0), len, end)
    }
}

/// `cache` agrees with the stream from bit `start` on: its low `count` bits
/// are stream bits, and any higher set bit stands for a set stream bit.
spec fn cache_matches(body: Seq<u8>, start: int, cache: u64, count: int) -> bool {
    &&& forall|j: int|
        #![trigger bit_at(cache, j)]
        0 <= j < count ==> bit_at(cache, j) == stream_bits(body)[start + j]
    &&& forall|j: int|
        #![trigger bit_at(cache, j)]
        count <= j < 64 && bit_at(cache, j) ==> start + j < 8 * body.len() && stream_bits(
            body,
        )[start + j]
}

/// `w` holds exactly the `n` stream bits from `start` on.
spec fn word_matches(body: Seq<u8>, start: int, w: u64, n: int) -> bool {
    forall|j: int|
        #![trigger bit_at(w, j)]
        0 <= j < 64 ==> bit_at(w, j) == (j < n && stream_bits(body)[start + j])
}

/// A single byte holds exactly its eight stream bits.
proof fn lemma_byte_bits(body: Seq<u8>, p: int)
    requires
        0 <= p < body.len(),
    ensures
        word_matches(body, 8 * p, body[p] as u64, 8),
{
    assert forall|j: int| 0 <= j < 64 implies #[trigger] bit_at(body[p] as u64, j) == (j < 8
        && stream_bits(body)[8 * p + j]) by {
        if j < 8 {
            assert((8 * p + j) / 8 == p && (8 * p + j) % 8 == j);
        } else {
            lemma_byte_high_bits(body[p], j);
        }
    }
}

/// Loading `n` further stream bits above the known ones keeps the match.
proof fn lemma_load(body: Seq<u8>, start: int, cache: u64, count: u32, w: u64, n: int)
    requires
        count < 56,
        8 <= n <= 64,
        0 <= start,
        start + count + n <= 8 * body.len(),
        cache_matches(body, start, cache, count as int),
        word_matches(body, start + count, w, n),
    ensures
        cache_matches(
            body,
            start,
            cache | (w << count),
            if count + n < 64 {
                count + n
            } else {
                64
            },
        ),
{
    let c2 = cache | (w << count);
    let known: int = if count + n < 64 { count + n } else { 64 };
    assert forall|j: int| 0 <= j < 64 implies #[trigger] bit_at(c2, j) == (bit_at(cache, j) || (j
        >= count && bit_at(w, j - count))) by {
        lemma_or_shl_bit(cache, w, count, j);
    }
    assert forall|j: int| 0 <= j < known implies #[trigger] bit_at(c2, j) == stream_bits(
        body,
    )[start + j] by {
        if j >= count {
            assert(bit_at(w, j - count) == stream_bits(body)[start + count + (j - count)]);
            assert(bit_at(cache, j) ==> stream_bits(body)[start + j]);
        }
    }
    assert forall|j: int| known <= j < 64 && #[trigger] bit_at(c2, j) implies start + j < 8
        * body.len() && stream_bits(body)[start + j] by {
        assert(!bit_at(w, j - count));
        assert(bit_at(cache, j));
    }
}

/// Knowing all 64 bits is knowing any smaller number of them.
proof fn lemma_more_known(body: Seq<u8>, start: int, cache: u64, count: int)
    requires
        0 <= start,
        0 <= count <= 64,
        start + 64 <= 8 * body.len(),
        cache_matches(body, start, cache, 64),
    ensures
        cache_matches(body, start, cache, count),
{
}

/// Dropping `k` known bits keeps the match.
proof fn lemma_drop(body: Seq<u8>, start: int, cache: u64, count: int, k: u32)
    requires
        k <= count < 64,
        cache_matches(body, start, cache, count),
    ensures
        cache_matches(body, start + k, cache >> k, count - k),
{
    let c2 = cache >> k;
    assert forall|j: int| 0 <= j < 64 implies #[trigger] bit_at(c2, j) == (j + k < 64 && bit_at(
        cache,
        j + k,
    )) by {
        if j + k < 64 {
            lemma_shr_bit(cache, k, j);
        } else {
            lemma_shr_bit_high(cache, k, j);
        }
    }
    assert forall|j: int| 0 <= j < count - k implies #[trigger] bit_at(c2, j) == stream_bits(
        body,
    )[start + k + j] by {
        assert(bit_at(cache, j + k) == stream_bits(body)[start + (j + k)]);
    }
    assert forall|j: int| count - k <= j < 64 && #[trigger] bit_at(c2, j) implies start + k + j < 8
        * body.len() && stream_bits(body)[start + k + j] by {
        assert(bit_at(cache, j + k));
    }
}

/// Reading a field draws no byte while the cache has enough bits, and
/// otherwise as many whole bytes as a cache of 63 bits takes, up to the end
/// of the body.
pub proof fn law_field_fills_cache(drawn: nat, len: nat, position: int, k: int)
    requires
        drawn <= len,
        0 <= 8 * drawn - position < 64,
        0 <= k <= 32,
    ensures
        ({
            let after = drawn_by_bits(drawn, len, position, k);
            &&& drawn <= after <= len
            &&& position + k <= 8 * drawn ==> after == drawn
            &&& position + k > 8 * drawn ==> 8 * after - position < 64 && (after == len || 8 * after
                + 8 - position >= 64)
        }),
{
}

/// Reading a prefix draws no byte while its end is in the cache, and
/// otherwise seven bytes at a time, up to the end of the body.
pub proof fn law_prefix_draws_seven_bytes_at_a_time(drawn: nat, len: nat, end: int)
    requires
        drawn <= len,
    ensures
        end < 8 * drawn || drawn == len ==> drawn_by_unary(drawn, len, end) == drawn,
        end >= 8 * drawn && drawn + 7 <= len ==> drawn_by_unary(drawn, len, end) == drawn_by_unary(
            drawn + 7,
            len,
            end,
        ),
        end >= 8 * drawn && drawn + 7 > len ==> drawn_by_unary(drawn, len, end) == len,
{
    reveal_with_fuel(drawn_by_unary, 2);
}

} // verus!
