//! LSB-first bit writer, the mirror of the bit reader.

use crate::bits::{bit_at, low_bits, pack_bits, padding, stream_bits, unary_bits, zero_bits};
use crate::bits::{lemma_mask_bit, lemma_or_shl_bit, lemma_shr_bit, lemma_shr_bit_high};
use crate::bits::{lemma_low_byte, lemma_power_positive};
use crate::bits::{
    law_packed_bits_read_back, lemma_stream_bits_injective, lemma_stream_bits_push, lemma_zero_word,
};
use vstd::prelude::*;

verus! {

/// Bit writer: bits fill each byte lowest first.
pub struct BitWriter {
    bytes: Vec<u8>,
    cache: u64,
    nbits: u32,
}

impl View for BitWriter {
    type V = Seq<bool>;

    /// The bits written so far.
    closed spec fn view(&self) -> Seq<bool> {
        stream_bits(self.bytes@) + low_bits(self.cache, self.nbits as nat)
    }
}

/// No bit of `cache` at or above place `n` is set.
spec fn clear_from(cache: u64, n: int) -> bool {
    forall|j: int| #![trigger bit_at(cache, j)] n <= j < 64 ==> !bit_at(cache, j)
}

impl BitWriter {
    /// Fewer than eight bits wait in the cache, with nothing above them.
    pub closed spec fn wf(&self) -> bool {
        &&& self.nbits < 8
        &&& clear_from(self.cache, self.nbits as int)
    }

    /// A writer with nothing written.
    pub fn new() -> (r: Self)
        ensures
            r.wf(),
            r@ == Seq::<bool>::empty(),
    {
        proof {
            lemma_zero_word();
        }
        let r = BitWriter { bytes: Vec::new(), cache: 0, nbits: 0 };
        assert(r@ =~= Seq::<bool>::empty());
        r
    }

    /// Append the `k` low bits of `value`, lowest first.
    pub fn put_bits(&mut self, value: u32, k: u32)
        requires
            old(self).wf(),
            k <= 32,
        ensures
            final(self).wf(),
            final(self)@ == old(self)@ + low_bits(value as u64, k as nat),
    {
        if k == 0 {
            assert(self@ + low_bits(value as u64, 0) =~= self@);
            return ;
        }
        let wide: u64 = value as u64;
        proof {
            lemma_power_positive(k);
        }
        let v: u64 = wide & ((1u64 << k) - 1);
        let ghost cache0 = self.cache;
        let ghost target = self@ + low_bits(wide, k as nat);
        self.cache = self.cache | (v << self.nbits);
        let ghost n0 = self.nbits;
        self.nbits = self.nbits + k;
        proof {
            assert forall|j: int| 0 <= j < 64 implies #[trigger] bit_at(self.cache, j) == (bit_at(
                cache0,
                j,
            ) || (n0 <= j < n0 + k && bit_at(wide, j - n0))) by {
                lemma_or_shl_bit(cache0, v, n0, j);
                if j >= n0 {
                    lemma_mask_bit(wide, k, j - n0);
                }
            }
            assert(low_bits(self.cache, self.nbits as nat) =~= low_bits(cache0, n0 as nat)
                + low_bits(wide, k as nat));
            assert(self@ =~= target);
        }
        while self.nbits >= 8
            invariant
                self.nbits <= 40,
                clear_from(self.cache, self.nbits as int),
                self@ == target,
            decreases self.nbits,
        {
            let ghost before = *self;
            let cache: u64 = self.cache;
            let low: u64 = cache & 0xFF;
            proof {
                lemma_low_byte(cache);
            }
            let b: u8 = low as u8;
            self.bytes.push(b);
            self.cache = self.cache >> 8;
            self.nbits = self.nbits - 8;
            proof {
                lemma_stream_bits_push(before.bytes@, b);
                assert forall|j: int| 0 <= j < 8 implies bit_at(b as u64, j) == bit_at(
                    before.cache,
                    j,
                ) by {
                    lemma_mask_bit(before.cache, 8, j);
                }
                assert forall|j: int| 0 <= j < 64 implies #[trigger] bit_at(self.cache, j) == (j + 8
                    < 64 && bit_at(before.cache, j + 8)) by {
                    if j + 8 < 64 {
                        lemma_shr_bit(before.cache, 8, j);
                    } else {
                        lemma_shr_bit_high(before.cache, 8, j);
                    }
                }
                assert(low_bits(before.cache, before.nbits as nat) =~= low_bits(b as u64, 8)
                    + low_bits(self.cache, self.nbits as nat));
                assert(self@ =~= before@);
            }
        }
    }

    /// Append `u` one bits and the terminating zero bit.
    pub fn put_unary(&mut self, u: u32)
        requires
            old(self).wf(),
        ensures
            final(self).wf(),
            final(self)@ == old(self)@ + unary_bits(u as nat),
    {
        let mut remaining: u32 = u;
        let ghost start = self@;
        assert(ones(0) =~= Seq::<bool>::empty());
        assert(start + ones(0) =~= start);
        while remaining >= 32
            invariant
                self.wf(),
                remaining <= u,
                self@ == start + ones((u - remaining) as nat),
            decreases remaining,
        {
            self.put_bits(u32::MAX, 32);
            proof {
                lemma_ones_word(u32::MAX, 32);
                assert(ones((u - remaining) as nat) + ones(32) =~= ones(
                    (u - remaining + 32) as nat,
                ));
                assert(self@ =~= start + ones((u - remaining + 32) as nat));
            }
            remaining = remaining - 32;
        }
        if remaining > 0 {
            proof {
                lemma_power_positive(remaining);
            }
            let tail: u32 = (1u32 << remaining) - 1;
            self.put_bits(tail, remaining);
            proof {
                lemma_ones_word(tail, remaining);
                assert(ones((u - remaining) as nat) + ones(remaining as nat) =~= ones(u as nat));
            }
        }
        assert(self@ =~= start + ones(u as nat));
        self.put_bits(0, 1);
        proof {
            lemma_zero_word();
            assert(ones(u as nat) + low_bits(0, 1) =~= unary_bits(u as nat));
            assert(self@ =~= start + unary_bits(u as nat));
        }
    }

    /// Pad with zero bits to a byte boundary and hand out the bytes.
    pub fn finish_byte_aligned(self) -> (r: Vec<u8>)
        requires
            self.wf(),
        ensures
            r@ == pack_bits(self@),
    {
        let BitWriter { bytes, cache, nbits } = self;
        let mut bytes = bytes;
        if nbits > 0 {
            let low: u64 = cache & 0xFF;
            proof {
                lemma_low_byte(cache);
            }
            let b: u8 = low as u8;
            proof {
                lemma_stream_bits_push(bytes@, b);
                assert forall|j: int| 0 <= j < 8 implies #[trigger] bit_at(b as u64, j) == (j
                    < nbits && bit_at(cache, j)) by {
                    lemma_mask_bit(cache, 8, j);
                    assert(j >= nbits ==> !bit_at(cache, j));
                }
                assert(low_bits(b as u64, 8) =~= low_bits(cache, nbits as nat) + zero_bits(
                    (8 - nbits) as nat,
                ));
            }
            bytes.push(b);
        }
        proof {
            assert(self@.len() % 8 == nbits);
            assert(stream_bits(bytes@) =~= self@ + zero_bits(padding(self@.len())));
            law_packed_bits_read_back(self@);
            lemma_stream_bits_injective(bytes@, pack_bits(self@));
        }
        bytes
    }
}

spec fn ones(n: nat) -> Seq<bool> {
    Seq::new(n, |i: int| true)
}

proof fn lemma_ones_word(w: u32, k: u32)
    requires
        k <= 32,
        w == if k == 32 {
            0xffff_ffffu32
        } else {
            ((1u32 << k) - 1) as u32
        },
    ensures
        low_bits(w as u64, k as nat) == ones(k as nat),
{
    let x = w as u64;
    assert forall|j: int| 0 <= j < k implies bit_at(x, j) by {
        let a = j as u64;
        assert((x >> a) & 1 == 1) by (bit_vector)
            requires
                a < k,
                k <= 32,
                x == w as u64,
                w == if k == 32 {
                    0xffff_ffffu32
                } else {
                    ((1u32 << k) - 1) as u32
                },
        ;
    }
    assert(low_bits(x, k as nat) =~= ones(k as nat));
}

} // verus!
