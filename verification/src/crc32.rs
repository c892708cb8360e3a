//! CRC-32 as used by Ethernet, gzip and PNG: reflected polynomial
//! `0xEDB88320`, register initialised to all ones and inverted at the end.

use vstd::prelude::*;

verus! {

/// Reflected CRC-32 polynomial.
pub const POLY: u32 = 0xEDB8_8320;

/// Inputs at least this long are folded eight bytes at a time; shorter ones
/// do not repay the cost of the lookup tables.
const BULK_MIN: usize = 512;

/// The register after one message bit has been shifted through.
pub open spec fn shift_bit(c: u32) -> u32 {
    if c & 1 == 1 {
        (c >> 1) ^ 0xEDB8_8320
    } else {
        c >> 1
    }
}

/// The register after `n` bits have been shifted through.
pub open spec fn shift_bits(c: u32, n: nat) -> u32
    decreases n,
{
    if n == 0 {
        c
    } else {
        shift_bit(shift_bits(c, (n - 1) as nat))
    }
}

/// The register after one message byte.
pub open spec fn fold_byte(c: u32, b: u8) -> u32 {
    shift_bits(c ^ (b as u32), 8)
}

/// The register after a whole message.
pub open spec fn fold(c: u32, bytes: Seq<u8>) -> u32
    decreases bytes.len(),
{
    if bytes.len() == 0 {
        c
    } else {
        fold_byte(fold(c, bytes.drop_last()), bytes.last())
    }
}

/// The CRC-32 of a message.
pub open spec fn crc32_spec(bytes: Seq<u8>) -> u32 {
    fold(0xFFFF_FFFF, bytes) ^ 0xFFFF_FFFF
}

/// `n` message bytes of zero shifted through.
spec fn shift_bytes(c: u32, n: nat) -> u32 {
    shift_bits(c, 8 * n)
}

/// A lookup table: entry `i` is byte value `i` shifted through.
pub open spec fn is_byte_table(t: Seq<u32>) -> bool {
    &&& t.len() == 256
    &&& forall|i: int| 0 <= i < 256 ==> #[trigger] t[i] == shift_bits(i as u32, 8)
}

/// Shift eight bits through one at a time.
fn shift_byte(c: u32) -> (r: u32)
    ensures
        r == shift_bits(c, 8),
{
    let mut x: u32 = c;
    let mut j: u32 = 0;
    while j < 8
        invariant
            j <= 8,
            x == shift_bits(c, j as nat),
        decreases 8 - j,
    {
        x = if x & 1 != 0 {
            (x >> 1) ^ POLY
        } else {
            x >> 1
        };
        proof {
            let y = shift_bits(c, j as nat);
            assert(y & 1 == 0 || y & 1 == 1) by (bit_vector);
        }
        j = j + 1;
    }
    x
}

/// Build the 256-entry byte table.
pub fn build_table() -> (table: [u32; 256])
    ensures
        is_byte_table(table@),
{
    let mut table: [u32; 256] = [0; 256];
    let mut i: usize = 0;
    while i < 256
        invariant
            i <= 256,
            forall|k: int| 0 <= k < i ==> #[trigger] table@[k] == shift_bits(k as u32, 8),
        decreases 256 - i,
    {
        table[i] = shift_byte(i as u32);
        i = i + 1;
    }
    table
}

/// Eight tables end to end: entry `256 * j + i` is byte value `i` followed
/// by `j` zero bytes.
spec fn is_table_set(t: Seq<u32>, filled: int) -> bool {
    &&& t.len() == 2048
    &&& forall|m: int|
        0 <= m < filled ==> #[trigger] t[m] == shift_bytes((m % 256) as u32, (m / 256 + 1) as nat)
}

/// Build the table set for eight-byte folding.
fn build_tables() -> (tables: [u32; 2048])
    ensures
        is_table_set(tables@, 2048),
{
    let first = build_table();
    let mut tables: [u32; 2048] = [0; 2048];
    let mut i: usize = 0;
    while i < 256
        invariant
            i <= 256,
            is_byte_table(first@),
            is_table_set(tables@, i as int),
        decreases 256 - i,
    {
        tables[i] = first[i];
        i = i + 1;
    }
    while i < 2048
        invariant
            256 <= i <= 2048,
            is_byte_table(first@),
            is_table_set(tables@, i as int),
        decreases 2048 - i,
    {
        let prev: u32 = tables[i - 256];
        tables[i] = advance_zero_byte(&first, prev);
        proof {
            let j = (i as int) / 256;
            lemma_shift_bits_add((i as int % 256) as u32, (8 * j) as nat, 8);
        }
        i = i + 1;
    }
    tables
}

/// One zero byte through the register, by table.
pub(crate) fn advance_zero_byte(table: &[u32; 256], c: u32) -> (r: u32)
    requires
        is_byte_table(table@),
    ensures
        r == shift_bits(c, 8),
{
    let idx: u32 = c & 0xFF;
    assert(idx < 256) by (bit_vector)
        requires
            idx == c & 0xFF,
    ;
    proof {
        lemma_by_table(c);
    }
    (c >> 8) ^ table[idx as usize]
}

/// Streaming CRC-32 register.
#[derive(Clone, Copy, Debug)]
pub struct Crc32 {
    state: u32,
}

impl View for Crc32 {
    type V = u32;

    /// The register.
    closed spec fn view(&self) -> u32 {
        self.state
    }
}

impl Default for Crc32 {
    fn default() -> (r: Self)
        ensures
            r@ == 0xFFFF_FFFF,
    {
        Crc32::new()
    }
}

impl Crc32 {
    /// A register with nothing folded in.
    pub fn new() -> (r: Self)
        ensures
            r@ == 0xFFFF_FFFF,
    {
        Crc32 { state: 0xFFFF_FFFF }
    }

    /// Fold one byte into the register.
    pub fn update_byte(&mut self, byte: u8)
        ensures
            final(self)@ == fold_byte(old(self)@, byte),
    {
        self.state = shift_byte(self.state ^ (byte as u32));
    }

    /// Fold a byte slice into the register.
    pub fn update(&mut self, bytes: &[u8])
        ensures
            final(self)@ == fold(old(self)@, bytes@),
    {
        let n: usize = bytes.len();
        let mut done: usize = 0;
        let ghost c0 = self@;
        assert(bytes@.take(0) =~= Seq::<u8>::empty());
        if n >= BULK_MIN {
            let tables = build_tables();
            while n - done >= 8
                invariant
                    n == bytes@.len(),
                    done <= n,
                    is_table_set(tables@, 2048),
                    self@ == fold(c0, bytes@.take(done as int)),
                decreases n - done,
            {
                self.state = fold_eight(&tables, self.state, bytes, done);
                proof {
                    let sub = bytes@.subrange(done as int, done + 8);
                    lemma_fold_concat(c0, bytes@.take(done as int), sub);
                    assert(bytes@.take(done as int) + sub =~= bytes@.take(done + 8));
                }
                done = done + 8;
            }
        }
        while done < n
            invariant
                n == bytes@.len(),
                done <= n,
                self@ == fold(c0, bytes@.take(done as int)),
            decreases n - done,
        {
            self.update_byte(bytes[done]);
            proof {
                let next = bytes@.take(done + 1);
                assert(next.drop_last() =~= bytes@.take(done as int));
            }
            done = done + 1;
        }
        assert(bytes@.take(n as int) =~= bytes@);
    }

    /// The CRC of everything folded in.
    pub fn finalize(self) -> (r: u32)
        ensures
            r == self@ ^ 0xFFFF_FFFF,
    {
        self.state ^ 0xFFFF_FFFF
    }
}

/// The CRC-32 of a byte slice.
pub fn crc32(bytes: &[u8]) -> (r: u32)
    ensures
        r == crc32_spec(bytes@),
{
    let mut h = Crc32::new();
    h.update(bytes);
    h.finalize()
}

/// Fold eight bytes at once with eight independent lookups.
fn fold_eight(tables: &[u32; 2048], c: u32, bytes: &[u8], at: usize) -> (r: u32)
    requires
        is_table_set(tables@, 2048),
        at + 8 <= bytes.len(),
    ensures
        r == fold(c, bytes@.subrange(at as int, at + 8)),
{
    let b0: u32 = bytes[at] as u32;
    let b1: u32 = bytes[at + 1] as u32;
    let b2: u32 = bytes[at + 2] as u32;
    let b3: u32 = bytes[at + 3] as u32;
    let b4: u32 = bytes[at + 4] as u32;
    let b5: u32 = bytes[at + 5] as u32;
    let b6: u32 = bytes[at + 6] as u32;
    let b7: u32 = bytes[at + 7] as u32;
    let lo: u32 = c ^ (b0 ^ (b1 << 8) ^ (b2 << 16) ^ (b3 << 24));
    let i0: u32 = lo & 0xFF;
    let i1: u32 = (lo >> 8) & 0xFF;
    let i2: u32 = (lo >> 16) & 0xFF;
    let i3: u32 = lo >> 24;
    assert(i0 < 256 && i1 < 256 && i2 < 256 && i3 < 256 && lo == i0 ^ (i1 << 8) ^ (i2 << 16) ^ (i3
        << 24)) by (bit_vector)
        requires
            i0 == lo & 0xFF,
            i1 == (lo >> 8) & 0xFF,
            i2 == (lo >> 16) & 0xFF,
            i3 == lo >> 24,
    ;
    let r: u32 = tables[1792 + i0 as usize] ^ tables[1536 + i1 as usize] ^ tables[1280
        + i2 as usize] ^ tables[1024 + i3 as usize] ^ tables[768 + b4 as usize] ^ tables[512
        + b5 as usize] ^ tables[256 + b6 as usize] ^ tables[b7 as usize];
    proof {
        let s = bytes@.subrange(at as int, at + 8);
        let first = s.take(4);
        let second = s.skip(4);
        assert(first + second =~= s);
        lemma_fold_concat(c, first, second);
        lemma_fold_four(c, first);
        let y = fold(c, first);
        lemma_fold_four(y, second);
        let hi = b4 ^ (b5 << 8) ^ (b6 << 16) ^ (b7 << 24);
        assert(y == shift_bytes(lo, 4));
        lemma_shift_bits_xor(y, hi, 32);
        lemma_shift_bits_add(lo, 32, 32);
        assert(fold(c, s) == shift_bytes(lo, 8) ^ shift_bytes(hi, 4));
        lemma_split_word(i0, i1, i2, i3, 8);
        lemma_split_word(b4, b5, b6, b7, 4);
        let (t0, t1, t2, t3) = (
            shift_bytes(i0, 8),
            shift_bytes(i1, 7),
            shift_bytes(i2, 6),
            shift_bytes(i3, 5),
        );
        let (t4, t5, t6, t7) = (
            shift_bytes(b4, 4),
            shift_bytes(b5, 3),
            shift_bytes(b6, 2),
            shift_bytes(b7, 1),
        );
        assert(tables@[1792 + i0] == t0);
        assert(tables@[1536 + i1] == t1);
        assert(tables@[1280 + i2] == t2);
        assert(tables@[1024 + i3] == t3);
        assert(tables@[768 + b4] == t4);
        assert(tables@[512 + b5] == t5);
        assert(tables@[256 + b6] == t6);
        assert(tables@[b7 as int] == t7);
        assert((t0 ^ t1 ^ t2 ^ t3) ^ (t4 ^ t5 ^ t6 ^ t7) == t0 ^ t1 ^ t2 ^ t3 ^ t4 ^ t5 ^ t6 ^ t7)
            by (bit_vector);
    }
    r
}

/// Folding two messages in turn is folding their concatenation: a message
/// may be split anywhere.
pub proof fn lemma_fold_concat(c: u32, a: Seq<u8>, b: Seq<u8>)
    ensures
        fold(c, a + b) == fold(fold(c, a), b),
    decreases b.len(),
{
    if b.len() == 0 {
        assert(a + b =~= a);
    } else {
        assert((a + b).drop_last() =~= a + b.drop_last());
        lemma_fold_concat(c, a, b.drop_last());
    }
}

/// Feeding a message in two pieces, split anywhere, gives the CRC of the
/// whole message.
pub proof fn law_crc32_split(bytes: Seq<u8>, split: int)
    requires
        0 <= split <= bytes.len(),
    ensures
        fold(fold(0xFFFF_FFFF, bytes.take(split)), bytes.skip(split)) ^ 0xFFFF_FFFF == crc32_spec(
            bytes,
        ),
{
    lemma_fold_concat(0xFFFF_FFFF, bytes.take(split), bytes.skip(split));
    assert(bytes.take(split) + bytes.skip(split) =~= bytes);
}

/// A change within one byte always changes the CRC.
pub proof fn law_crc32_finds_changed_byte(bytes: Seq<u8>, i: int, b: u8)
    requires
        0 <= i < bytes.len(),
        b != bytes[i],
    ensures
        crc32_spec(bytes.update(i, b)) != crc32_spec(bytes),
{
    let changed = bytes.update(i, b);
    let c = fold(0xFFFF_FFFF, bytes.take(i));
    let rest = bytes.skip(i + 1);
    let x = fold_byte(c, bytes[i]);
    let y = fold_byte(c, b);
    assert(bytes.take(i + 1).drop_last() =~= bytes.take(i));
    assert(changed.take(i + 1).drop_last() =~= bytes.take(i));
    assert(bytes =~= bytes.take(i + 1) + rest);
    assert(changed =~= changed.take(i + 1) + rest);
    lemma_fold_concat(0xFFFF_FFFF, bytes.take(i + 1), rest);
    lemma_fold_concat(0xFFFF_FFFF, changed.take(i + 1), rest);
    lemma_xor_injective(c, bytes[i] as u32, b as u32);
    if x == y {
        lemma_shift_injective(c ^ (bytes[i] as u32), c ^ (b as u32), 8);
    }
    if fold(x, rest) == fold(y, rest) {
        lemma_fold_injective(x, y, rest);
    }
    lemma_xor_injective(0xFFFF_FFFF, fold(x, rest), fold(y, rest));
}

/// Exclusive or with the same word, on either side, keeps words apart.
proof fn lemma_xor_injective(c: u32, x: u32, y: u32)
    ensures
        c ^ x == c ^ y ==> x == y,
        x ^ c == y ^ c ==> x == y,
{
    assert((c ^ x == c ^ y ==> x == y) && (x ^ c == y ^ c ==> x == y)) by (bit_vector);
}

/// Shifting bits through keeps registers apart.
proof fn lemma_shift_injective(x: u32, y: u32, n: nat)
    requires
        shift_bits(x, n) == shift_bits(y, n),
    ensures
        x == y,
    decreases n,
{
    if n > 0 {
        let a = shift_bits(x, (n - 1) as nat);
        let b = shift_bits(y, (n - 1) as nat);
        assert(shift_bit(a) == shift_bit(b) ==> a == b) by (bit_vector);
        lemma_shift_injective(x, y, (n - 1) as nat);
    }
}

/// Folding a message keeps registers apart.
proof fn lemma_fold_injective(x: u32, y: u32, bytes: Seq<u8>)
    requires
        fold(x, bytes) == fold(y, bytes),
    ensures
        x == y,
    decreases bytes.len(),
{
    if bytes.len() > 0 {
        let a = fold(x, bytes.drop_last());
        let b = fold(y, bytes.drop_last());
        let w = bytes.last() as u32;
        lemma_shift_injective(a ^ w, b ^ w, 8);
        lemma_xor_injective(w, a, b);
        lemma_fold_injective(x, y, bytes.drop_last());
    }
}

proof fn lemma_shift_bits_add(c: u32, m: nat, n: nat)
    ensures
        shift_bits(c, m + n) == shift_bits(shift_bits(c, m), n),
    decreases n,
{
    if n > 0 {
        lemma_shift_bits_add(c, m, (n - 1) as nat);
    }
}

/// Shifting is linear over exclusive or.
proof fn lemma_shift_bits_xor(a: u32, b: u32, n: nat)
    ensures
        shift_bits(a ^ b, n) == shift_bits(a, n) ^ shift_bits(b, n),
    decreases n,
{
    if n > 0 {
        lemma_shift_bits_xor(a, b, (n - 1) as nat);
        let x = shift_bits(a, (n - 1) as nat);
        let y = shift_bits(b, (n - 1) as nat);
        assert(shift_bit(x ^ y) == shift_bit(x) ^ shift_bit(y)) by (bit_vector);
    }
}

/// Bits above the ones shifted out just move down.
proof fn lemma_shift_clear(c: u32, n: nat)
    requires
        n <= 8,
        c & 0xFF == 0,
    ensures
        shift_bits(c, n) == c >> (n as u32),
    decreases n,
{
    if n == 0 {
        assert(c >> 0u32 == c) by (bit_vector);
    } else {
        lemma_shift_clear(c, (n - 1) as nat);
        let m = (n - 1) as u32;
        let k = n as u32;
        let prev = c >> m;
        assert(shift_bit(prev) == c >> k) by (bit_vector)
            requires
                prev == c >> m,
                k <= 8,
                k == m + 1,
                c & 0xFF == 0,
        ;
    }
}

/// One byte through the register splits into a table entry and a shift.
proof fn lemma_by_table(c: u32)
    ensures
        shift_bits(c, 8) == (c >> 8) ^ shift_bits(c & 0xFF, 8),
{
    let low = c & 0xFF;
    let high = c & 0xFFFF_FF00;
    assert(c == high ^ low && high & 0xFF == 0 && high >> 8u32 == c >> 8u32) by (bit_vector)
        requires
            low == c & 0xFF,
            high == c & 0xFFFF_FF00,
    ;
    lemma_shift_bits_xor(high, low, 8);
    lemma_shift_clear(high, 8);
}

/// A byte sitting `8 * k` bits up takes `k` byte shifts to come down.
proof fn lemma_shift_down(b: u32, k: nat, n: nat)
    requires
        b < 256,
        k <= 3,
        k <= n,
    ensures
        shift_bytes(b << ((8 * k) as u32), n) == shift_bytes(b, (n - k) as nat),
    decreases k,
{
    if k == 0 {
        assert(b << 0u32 == b) by (bit_vector);
    } else {
        let s = (8 * k) as u32;
        let t = (8 * (k - 1)) as u32;
        let x = b << s;
        assert(x & 0xFF == 0 && x >> 8u32 == b << t) by (bit_vector)
            requires
                b < 256,
                x == b << s,
                s <= 24,
                s == t + 8,
        ;
        lemma_shift_clear(x, 8);
        lemma_shift_bits_add(x, 8, (8 * (n - 1)) as nat);
        lemma_shift_down(b, (k - 1) as nat, (n - 1) as nat);
    }
}

/// A word through the register is its four bytes through it separately.
proof fn lemma_split_word(b0: u32, b1: u32, b2: u32, b3: u32, n: nat)
    requires
        b0 < 256,
        b1 < 256,
        b2 < 256,
        b3 < 256,
        n >= 3,
    ensures
        shift_bytes(b0 ^ (b1 << 8) ^ (b2 << 16) ^ (b3 << 24), n) == shift_bytes(b0, n)
            ^ shift_bytes(b1, (n - 1) as nat) ^ shift_bytes(b2, (n - 2) as nat) ^ shift_bytes(
            b3,
            (n - 3) as nat,
        ),
{
    lemma_shift_bits_xor(b0 ^ (b1 << 8) ^ (b2 << 16), b3 << 24, 8 * n);
    lemma_shift_bits_xor(b0 ^ (b1 << 8), b2 << 16, 8 * n);
    lemma_shift_bits_xor(b0, b1 << 8, 8 * n);
    lemma_shift_down(b1, 1, n);
    lemma_shift_down(b2, 2, n);
    lemma_shift_down(b3, 3, n);
}

/// Four bytes folded one by one are one word folded at once.
proof fn lemma_fold_four(c: u32, s: Seq<u8>)
    requires
        s.len() == 4,
    ensures
        fold(c, s) == shift_bytes(
            c ^ ((s[0] as u32) ^ ((s[1] as u32) << 8) ^ ((s[2] as u32) << 16) ^ ((s[3] as u32)
                << 24)),
            4,
        ),
{
    let b0 = s[0] as u32;
    let b1 = s[1] as u32;
    let b2 = s[2] as u32;
    let b3 = s[3] as u32;
    let s1 = s.take(1);
    let s2 = s.take(2);
    let s3 = s.take(3);
    assert(s.drop_last() =~= s3);
    assert(s3.drop_last() =~= s2);
    assert(s2.drop_last() =~= s1);
    assert(s1.drop_last() =~= Seq::<u8>::empty());
    let f1 = shift_bits(c ^ b0, 8);
    let f2 = shift_bits(f1 ^ b1, 8);
    let f3 = shift_bits(f2 ^ b2, 8);
    let f4 = shift_bits(f3 ^ b3, 8);
    reveal_with_fuel(fold, 6);
    assert(fold(c, s) == f4);
    lemma_shift_bits_xor(c, b0, 8);
    lemma_shift_bits_xor(f1, b1, 8);
    lemma_shift_bits_xor(f2, b2, 8);
    lemma_shift_bits_xor(f3, b3, 8);
    let x0 = shift_bytes(c, 1);
    let x1 = shift_bytes(b0, 1);
    lemma_shift_bits_xor(x0, x1, 8);
    let y0 = shift_bytes(c, 2);
    let y1 = shift_bytes(b0, 2);
    let y2 = shift_bytes(b1, 1);
    lemma_shift_bits_add(c, 8, 8);
    lemma_shift_bits_add(b0, 8, 8);
    assert(f2 == (y0 ^ y1) ^ y2);
    lemma_shift_bits_xor(y0 ^ y1, y2, 8);
    lemma_shift_bits_xor(y0, y1, 8);
    lemma_shift_bits_add(c, 16, 8);
    lemma_shift_bits_add(b0, 16, 8);
    lemma_shift_bits_add(b1, 8, 8);
    let z0 = shift_bytes(c, 3);
    let z1 = shift_bytes(b0, 3);
    let z2 = shift_bytes(b1, 2);
    let z3 = shift_bytes(b2, 1);
    assert(f3 == (z0 ^ z1 ^ z2) ^ z3);
    lemma_shift_bits_xor(z0 ^ z1 ^ z2, z3, 8);
    lemma_shift_bits_xor(z0 ^ z1, z2, 8);
    lemma_shift_bits_xor(z0, z1, 8);
    lemma_shift_bits_add(c, 24, 8);
    lemma_shift_bits_add(b0, 24, 8);
    lemma_shift_bits_add(b1, 16, 8);
    lemma_shift_bits_add(b2, 8, 8);
    let w0 = shift_bytes(c, 4);
    let w1 = shift_bytes(b0, 4);
    let w2 = shift_bytes(b1, 3);
    let w3 = shift_bytes(b2, 2);
    let w4 = shift_bytes(b3, 1);
    assert(f4 == (w0 ^ w1 ^ w2 ^ w3) ^ w4);
    lemma_split_word(b0, b1, b2, b3, 4);
    lemma_shift_bits_xor(c, b0 ^ (b1 << 8) ^ (b2 << 16) ^ (b3 << 24), 32);
    assert((w0 ^ w1 ^ w2 ^ w3) ^ w4 == w0 ^ (w1 ^ w2 ^ w3 ^ w4)) by (bit_vector);
}

/// What one more byte does to the CRC. With the inversion taken off, the
/// register moves down by eight bits, and each one bit of its old low byte,
/// combined with the new byte, adds the remainder of that power of two by the
/// polynomial. The empty message has CRC zero.
#[verifier::rlimit(60)]
pub proof fn law_crc32_takes_in_byte(bytes: Seq<u8>, b: u8)
    ensures
        crc32_spec(Seq::empty()) == 0,
        ({
            let r = crc32_spec(bytes) ^ 0xFFFF_FFFF;
            let t = (r ^ (b as u32)) & 0xFF;
            crc32_spec(bytes.push(b)) ^ 0xFFFF_FFFF == (r >> 8)
                ^ (if t & 1 != 0 { 0x7707_3096 } else { 0u32 })
                ^ (if t & 2 != 0 { 0xEE0E_612C } else { 0u32 })
                ^ (if t & 4 != 0 { 0x076D_C419 } else { 0u32 })
                ^ (if t & 8 != 0 { 0x0EDB_8832 } else { 0u32 })
                ^ (if t & 16 != 0 { 0x1DB7_1064 } else { 0u32 })
                ^ (if t & 32 != 0 { 0x3B6E_20C8 } else { 0u32 })
                ^ (if t & 64 != 0 { 0x76DC_4190 } else { 0u32 })
                ^ (if t & 128 != 0 { 0xEDB8_8320 } else { 0u32 })
        }),
{
    let c = fold(0xFFFF_FFFF, bytes);
    let w = b as u32;
    let x0 = c ^ w;
    let x1 = shift_bit(x0);
    let x2 = shift_bit(x1);
    let x3 = shift_bit(x2);
    let x4 = shift_bit(x3);
    let x5 = shift_bit(x4);
    let x6 = shift_bit(x5);
    let x7 = shift_bit(x6);
    let x8 = shift_bit(x7);
    reveal_with_fuel(shift_bits, 9);
    assert(bytes.push(b).drop_last() =~= bytes);
    assert(fold(0xFFFF_FFFF, bytes.push(b)) == x8);
    let r = crc32_spec(bytes) ^ 0xFFFF_FFFF;
    let t = (r ^ w) & 0xFF;
    let f = 0xFFFF_FFFFu32;
    assert(f ^ f == 0 && (x8 ^ f) ^ f == x8 && x8 == (r >> 8)
        ^ (if t & 1 != 0 { 0x7707_3096 } else { 0u32 })
        ^ (if t & 2 != 0 { 0xEE0E_612C } else { 0u32 })
        ^ (if t & 4 != 0 { 0x076D_C419 } else { 0u32 })
        ^ (if t & 8 != 0 { 0x0EDB_8832 } else { 0u32 })
        ^ (if t & 16 != 0 { 0x1DB7_1064 } else { 0u32 })
        ^ (if t & 32 != 0 { 0x3B6E_20C8 } else { 0u32 })
        ^ (if t & 64 != 0 { 0x76DC_4190 } else { 0u32 })
        ^ (if t & 128 != 0 { 0xEDB8_8320 } else { 0u32 })) by (bit_vector)
        requires
            f == 0xFFFF_FFFFu32,
            r == (c ^ f) ^ f,
            w < 256,
            t == (r ^ w) & 0xFF,
            x0 == c ^ w,
            x1 == shift_bit(x0),
            x2 == shift_bit(x1),
            x3 == shift_bit(x2),
            x4 == shift_bit(x3),
            x5 == shift_bit(x4),
            x6 == shift_bit(x5),
            x7 == shift_bit(x6),
            x8 == shift_bit(x7),
    ;
}

} // verus!
