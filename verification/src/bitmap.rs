//! Bitmap allocator over a contiguous span of blocks.
//!
//! A bitmap block is 512 bytes; bit `i` of a block is bit `i % 8` of byte
//! `i / 8`, so the span tracks `blocks * 4096` resources. `alloc` always
//! returns the lowest clear bit, `dealloc` clears a bit that must be set.

use vstd::prelude::*;

use crate::block_cache::BlockCacheManager;
use crate::BLOCK_SZ;

verus! {

/// Number of bits tracked by one bitmap block.
pub const BLOCK_BITS: usize = 4096;

/// Whether bit `pos` of byte `b` is set.
pub open spec fn byte_bit(b: u8, pos: u8) -> bool {
    b & (1u8 << pos) != 0
}

/// Whether bit `bit` of the bitmap starting at block `start` is set in the
/// disk view `v`.
pub open spec fn bit_is_set(v: Seq<Seq<u8>>, start: int, bit: int) -> bool {
    byte_bit(v[start + bit / 4096][(bit % 4096) / 8], (bit % 8) as u8)
}

/// Number of clear bits among the first `n` bits of the bitmap.
pub open spec fn free_count(v: Seq<Seq<u8>>, start: int, n: int) -> nat
    decreases n,
{
    if n <= 0 {
        0
    } else {
        free_count(v, start, n - 1) + if bit_is_set(v, start, n - 1) {
            0nat
        } else {
            1nat
        }
    }
}

/// Bitmaps that agree on their first `n` bits have the same free count.
pub proof fn lemma_free_count_agree(v1: Seq<Seq<u8>>, v2: Seq<Seq<u8>>, start: int, n: int)
    requires
        forall|b: int| 0 <= b < n ==> bit_is_set(v1, start, b) == bit_is_set(v2, start, b),
    ensures
        free_count(v1, start, n) == free_count(v2, start, n),
    decreases n,
{
    if n > 0 {
        lemma_free_count_agree(v1, v2, start, n - 1);
    }
}

/// Setting one clear bit decreases the free count by one.
pub proof fn lemma_free_count_set(v1: Seq<Seq<u8>>, v2: Seq<Seq<u8>>, start: int, bit: int, n: int)
    requires
        0 <= bit < n,
        !bit_is_set(v1, start, bit),
        forall|b: int|
            0 <= b < n ==> bit_is_set(v2, start, b) == (bit_is_set(v1, start, b) || b == bit),
    ensures
        free_count(v2, start, n) + 1 == free_count(v1, start, n),
    decreases n,
{
    if bit == n - 1 {
        lemma_free_count_agree(v1, v2, start, n - 1);
    } else {
        lemma_free_count_set(v1, v2, start, bit, n - 1);
    }
}

/// Clearing one set bit increases the free count by one.
pub proof fn lemma_free_count_clear(
    v1: Seq<Seq<u8>>,
    v2: Seq<Seq<u8>>,
    start: int,
    bit: int,
    n: int,
)
    requires
        0 <= bit < n,
        bit_is_set(v1, start, bit),
        forall|b: int|
            0 <= b < n ==> bit_is_set(v2, start, b) == (bit_is_set(v1, start, b) && b != bit),
    ensures
        free_count(v2, start, n) == free_count(v1, start, n) + 1,
    decreases n,
{
    if bit == n - 1 {
        lemma_free_count_agree(v1, v2, start, n - 1);
    } else {
        lemma_free_count_clear(v1, v2, start, bit, n - 1);
    }
}

/// A positive free count names a free bit.
pub proof fn lemma_free_count_pos(v: Seq<Seq<u8>>, start: int, n: int)
    requires
        free_count(v, start, n) > 0,
    ensures
        exists|j: int| 0 <= j < n && !bit_is_set(v, start, j),
    decreases n,
{
    if n > 0 {
        if !bit_is_set(v, start, n - 1) {
            assert(0 <= n - 1 < n && !bit_is_set(v, start, n - 1));
        } else {
            lemma_free_count_pos(v, start, n - 1);
        }
    }
}

/// A free bit makes the free count positive.
pub proof fn lemma_free_count_lower(v: Seq<Seq<u8>>, start: int, j: int, n: int)
    requires
        0 <= j < n,
        !bit_is_set(v, start, j),
    ensures
        free_count(v, start, n) > 0,
    decreases n,
{
    if j < n - 1 {
        lemma_free_count_lower(v, start, j, n - 1);
    }
}

/// With every bit free the count is the whole span.
pub proof fn lemma_free_count_full(v: Seq<Seq<u8>>, start: int, n: int)
    requires
        forall|j: int| 0 <= j < n ==> !bit_is_set(v, start, j),
    ensures
        free_count(v, start, n) == n || n < 0,
    decreases n,
{
    if n > 0 {
        lemma_free_count_full(v, start, n - 1);
    }
}

/// Involution: after an allocation that returned `r` and a freeing of
/// `r`, every bit is as it began, so the next allocation returns `r`
/// again. The premises are exactly what `alloc_bit` ensures of the first
/// state and `dealloc` ensures of the second.
pub proof fn lemma_alloc_dealloc_involution(
    v1: Seq<Seq<u8>>,
    v2: Seq<Seq<u8>>,
    start: int,
    max: int,
    r: int,
)
    requires
        0 <= r < max,
        !bit_is_set(v1, start, r),
        forall|j: int| 0 <= j < r ==> bit_is_set(v1, start, j),
        forall|j: int|
            0 <= j < max ==> bit_is_set(v2, start, j) == ((bit_is_set(v1, start, j) || j == r)
                && j != r),
    ensures
        forall|j: int| 0 <= j < max ==> bit_is_set(v2, start, j) == bit_is_set(v1, start, j),
        !bit_is_set(v2, start, r),
        forall|j: int| 0 <= j < r ==> bit_is_set(v2, start, j),
{
}

/// Determinism: on a bitmap whose allocated bits are exactly the first
/// `k`, an allocation returns `k`, and the allocated bits are then exactly
/// the first `k + 1` — successive allocations count up from zero. The
/// premises about `r` are what `alloc_bit` ensures.
pub proof fn lemma_alloc_determinism(
    v1: Seq<Seq<u8>>,
    v2: Seq<Seq<u8>>,
    start: int,
    max: int,
    k: int,
    r: int,
)
    requires
        0 <= k < max,
        forall|j: int| 0 <= j < max ==> (bit_is_set(v1, start, j) <==> j < k),
        0 <= r < max,
        !bit_is_set(v1, start, r),
        forall|j: int| 0 <= j < r ==> bit_is_set(v1, start, j),
        forall|j: int|
            0 <= j < max ==> bit_is_set(v2, start, j) == (bit_is_set(v1, start, j) || j == r),
    ensures
        r == k,
        forall|j: int| 0 <= j < max ==> (bit_is_set(v2, start, j) <==> j < k + 1),
{
    if r < k {
        assert(bit_is_set(v1, start, r));
    }
    if r > k {
        assert(bit_is_set(v1, start, k));
    }
}

/// No bit of an all-zero byte is set.
pub proof fn lemma_zero_byte_clear(p: u8)
    by (bit_vector)
    requires
        p < 8,
    ensures
        !byte_bit(0u8, p),
{
}

/// A byte whose eight bits are all set is 255.
proof fn lemma_all_bits_full(x: u8)
    by (bit_vector)
    requires
        byte_bit(x, 0),
        byte_bit(x, 1),
        byte_bit(x, 2),
        byte_bit(x, 3),
        byte_bit(x, 4),
        byte_bit(x, 5),
        byte_bit(x, 6),
        byte_bit(x, 7),
    ensures
        x == 0xFF,
{
}

/// Setting bit `p` of `x` leaves every other bit alone.
proof fn lemma_set_bit(x: u8, p: u8)
    by (bit_vector)
    requires
        p < 8,
    ensures
        byte_bit(x | (1u8 << p), p),
        forall|q: u8| q < 8 && q != p ==> byte_bit(x | (1u8 << p), q) == byte_bit(x, q),
{
}

/// Clearing set bit `p` of `x` by subtraction leaves every other bit alone.
proof fn lemma_clear_bit(x: u8, p: u8)
    by (bit_vector)
    requires
        p < 8,
        byte_bit(x, p),
    ensures
        x >= (1u8 << p),
        !byte_bit((x - (1u8 << p)) as u8, p),
        forall|q: u8| q < 8 && q != p ==> byte_bit((x - (1u8 << p)) as u8, q) == byte_bit(x, q),
{
}

/// The scan's bit test agrees with `byte_bit`.
pub proof fn lemma_shift_test_pub(x: u8, p: u8)
    by (bit_vector)
    requires
        p < 8,
    ensures
        ((x >> p) & 1) == 1 <==> byte_bit(x, p),
        ((x >> p) & 1) == 0 <==> !byte_bit(x, p),
{
}

/// The scan's bit test agrees with `byte_bit`.
proof fn lemma_shift_test(x: u8, p: u8)
    by (bit_vector)
    requires
        p < 8,
    ensures
        ((x >> p) & 1) == 1 <==> byte_bit(x, p),
{
}

/// Decompose an absolute bit index into its block, 64-bit word within the
/// block, and bit within the word.
pub fn decomposition(bit: usize) -> (r: (usize, usize, usize))
    ensures
        r.0 == bit / 4096,
        r.1 == (bit % 4096) / 64,
        r.2 == bit % 64,
{
    let block_pos = bit / BLOCK_BITS;
    let rem = bit % BLOCK_BITS;
    proof {
        assert(bit % 4096 % 64 == bit % 64) by (nonlinear_arith);
    }
    (block_pos, rem / 64, rem % 64)
}

/// A bitmap over `blocks` blocks starting at `start_block_id`.
pub struct Bitmap {
    pub start_block_id: usize,
    pub blocks: usize,
}

impl Bitmap {
    /// The bitmap's span lies within the disk and its bit indices fit usize.
    pub open spec fn spec_wf(&self, v: Seq<Seq<u8>>) -> bool {
        &&& self.start_block_id + self.blocks <= v.len()
        &&& self.start_block_id + self.blocks <= usize::MAX
        &&& self.blocks * 4096 <= usize::MAX
    }

    /// A bitmap from its start block id and number of blocks.
    pub fn new(start_block_id: usize, blocks: usize) -> (r: Self)
        ensures
            r.start_block_id == start_block_id,
            r.blocks == blocks,
    {
        Bitmap { start_block_id, blocks }
    }

    /// The number of bits the bitmap manages.
    pub fn maximum(&self) -> (r: usize)
        requires
            self.blocks * 4096 <= usize::MAX,
        ensures
            r == self.blocks * 4096,
    {
        self.blocks * BLOCK_BITS
    }

    /// Allocate the lowest clear bit, or report that every bit is set.
    pub fn alloc_bit(&self, cache: &mut BlockCacheManager) -> (r: Option<usize>)
        requires
            old(cache).wf(),
            self.spec_wf(old(cache)@),
        ensures
            final(cache).wf(),
            final(cache)@.len() == old(cache)@.len(),
            self.spec_wf(final(cache)@),
            match r {
                None => {
                    &&& final(cache)@ == old(cache)@
                    &&& forall|b: int|
                        0 <= b < self.blocks * 4096 ==> bit_is_set(
                            old(cache)@,
                            self.start_block_id as int,
                            b,
                        )
                },
                Some(bit) => {
                    &&& bit < self.blocks * 4096
                    &&& !bit_is_set(old(cache)@, self.start_block_id as int, bit as int)
                    &&& forall|b: int|
                        0 <= b < bit ==> bit_is_set(old(cache)@, self.start_block_id as int, b)
                    &&& forall|b: int|
                        0 <= b < self.blocks * 4096 ==> bit_is_set(
                            final(cache)@,
                            self.start_block_id as int,
                            b,
                        ) == (bit_is_set(old(cache)@, self.start_block_id as int, b) || b
                            == bit)
                    &&& forall|blk: int|
                        0 <= blk < old(cache)@.len() && !(self.start_block_id <= blk
                            < self.start_block_id + self.blocks) ==> final(cache)@[blk] == old(
                            cache,
                        )@[blk]
                },
            },
    {
        proof {
            cache.lemma_view_wf();
        }
        let ghost v0 = cache@;
        let ghost start = self.start_block_id as int;
        let mut blk: usize = 0;
        while blk < self.blocks
            invariant
                cache.wf(),
                cache@ == v0,
                v0 == old(cache)@,
                self.spec_wf(v0),
                start == self.start_block_id as int,
                blk <= self.blocks,
                forall|b: int| 0 <= b < blk * 4096 ==> bit_is_set(v0, start, b),
            decreases self.blocks - blk,
        {
            proof {
                cache.lemma_view_wf();
                assert(blk * 4096 <= self.blocks * 4096) by (nonlinear_arith)
                    requires
                        blk <= self.blocks,
                ;
            }
            let mut byte: usize = 0;
            while byte < BLOCK_SZ
                invariant
                    cache.wf(),
                    cache@ == v0,
                    v0 == old(cache)@,
                    self.spec_wf(v0),
                    start == self.start_block_id as int,
                    blk < self.blocks,
                    byte <= BLOCK_SZ,
                    forall|b: int| 0 <= b < blk * 4096 + byte * 8 ==> bit_is_set(v0, start, b),
                decreases BLOCK_SZ - byte,
            {
                proof {
                    cache.lemma_view_wf();
                }
                let x = cache.read_byte(self.start_block_id + blk, byte);
                if x != 0xFF {
                    // the lowest clear bit of this byte is the answer
                    let mut pos: u8 = 0;
                    while pos < 8 && ((x >> pos) & 1) == 1
                        invariant
                            pos <= 8,
                            forall|q: u8| q < pos ==> byte_bit(x, q),
                        decreases 8 - pos,
                    {
                        proof {
                            lemma_shift_test(x, pos);
                        }
                        pos = pos + 1;
                    }
                    proof {
                        if pos == 8 {
                            assert(byte_bit(x, 0) && byte_bit(x, 1) && byte_bit(x, 2) && byte_bit(
                                x,
                                3,
                            ) && byte_bit(x, 4) && byte_bit(x, 5) && byte_bit(x, 6) && byte_bit(
                                x,
                                7,
                            ));
                            lemma_all_bits_full(x);
                            assert(false);
                        }
                        lemma_shift_test(x, pos);
                    }
                    let bit = blk * BLOCK_BITS + byte * 8 + pos as usize;
                    proof {
                        assert(blk * 4096 + byte * 8 + pos < self.blocks * 4096
                            && blk * 4096 + byte * 8 + pos <= usize::MAX) by (nonlinear_arith)
                            requires
                                blk < self.blocks,
                                byte < 512,
                                pos < 8,
                                self.blocks * 4096 <= usize::MAX,
                        ;
                    }
                    let newbyte = x | (1u8 << pos);
                    cache.write_byte(self.start_block_id + blk, byte, newbyte);
                    proof {
                        lemma_set_bit(x, pos);
                        self.lemma_bit_decomp(v0, blk as int, byte as int, pos as int);
                        let b0 = bit as int;
                        assert(!bit_is_set(v0, start, b0));
                        assert forall|b: int| 0 <= b < b0 implies bit_is_set(v0, start, b) by {
                            if b >= blk * 4096 + byte * 8 {
                                self.lemma_bit_in_byte(v0, b, blk as int, byte as int);
                                lemma_shift_test(x, (b % 8) as u8);
                            }
                        }
                        assert forall|b: int|
                            0 <= b < self.blocks * 4096 implies bit_is_set(cache@, start, b) == (
                        bit_is_set(v0, start, b) || b == b0) by {
                            self.lemma_bit_update(v0, cache@, b, blk as int, byte as int, newbyte);
                            if b / 4096 == blk && (b % 4096) / 8 == byte {
                                lemma_set_bit(x, (b % 8) as u8);
                                if b != b0 {
                                    self.lemma_bit_same_byte_distinct(
                                        b,
                                        b0,
                                        blk as int,
                                        byte as int,
                                    );
                                }
                            }
                        }
                    }
                    return Some(bit);
                }
                proof {
                    assert forall|b: int|
                        0 <= b < blk * 4096 + byte * 8 + 8 implies bit_is_set(v0, start, b) by {
                        if b >= blk * 4096 + byte * 8 {
                            self.lemma_bit_in_byte(v0, b, blk as int, byte as int);
                            let q = (b % 8) as u8;
                            assert(byte_bit(x, q)) by (bit_vector)
                                requires
                                    x == 0xFF && q < 8,
                            ;
                        }
                    }
                }
                byte = byte + 1;
            }
            proof {
                assert(blk * 4096 + 512 * 8 == (blk + 1) * 4096) by (nonlinear_arith);
            }
            blk = blk + 1;
        }
        proof {
            assert forall|b: int|
                0 <= b < self.blocks * 4096 implies bit_is_set(v0, start, b) by {
            }
        }
        None
    }

    /// A bit index built from a block, byte and position addresses that byte.
    proof fn lemma_bit_decomp(&self, v: Seq<Seq<u8>>, blk: int, byte: int, pos: int)
        requires
            0 <= blk,
            0 <= byte < 512,
            0 <= pos < 8,
        ensures
            (blk * 4096 + byte * 8 + pos) / 4096 == blk,
            ((blk * 4096 + byte * 8 + pos) % 4096) / 8 == byte,
            (blk * 4096 + byte * 8 + pos) % 8 == pos,
    {
        let b = blk * 4096 + byte * 8 + pos;
        assert(b / 4096 == blk && b % 4096 == byte * 8 + pos) by (nonlinear_arith)
            requires
                0 <= blk && 0 <= byte < 512 && 0 <= pos < 8 && b == blk * 4096 + byte * 8 + pos,
        ;
        assert((byte * 8 + pos) / 8 == byte && (byte * 8 + pos) % 8 == pos) by (nonlinear_arith)
            requires
                0 <= byte && 0 <= pos < 8,
        ;
        assert(b % 8 == pos) by (nonlinear_arith)
            requires
                b % 4096 == byte * 8 + pos && (byte * 8 + pos) % 8 == pos && 0 <= b,
        ;
    }

    /// A bit index in the 8-bit span of (blk, byte) decomposes into them.
    proof fn lemma_bit_in_byte(&self, v: Seq<Seq<u8>>, b: int, blk: int, byte: int)
        requires
            0 <= blk,
            0 <= byte < 512,
            blk * 4096 + byte * 8 <= b < blk * 4096 + byte * 8 + 8,
        ensures
            b / 4096 == blk,
            (b % 4096) / 8 == byte,
            0 <= b % 8 < 8,
            b == blk * 4096 + byte * 8 + b % 8,
    {
        self.lemma_bit_decomp(v, blk, byte, b - (blk * 4096 + byte * 8));
    }

    /// Two distinct bits of the same byte have distinct positions.
    proof fn lemma_bit_same_byte_distinct(&self, b1: int, b2: int, blk: int, byte: int)
        requires
            0 <= b1,
            0 <= b2,
            b1 != b2,
            b1 / 4096 == blk && (b1 % 4096) / 8 == byte,
            b2 / 4096 == blk && (b2 % 4096) / 8 == byte,
        ensures
            b1 % 8 != b2 % 8,
    {
        assert(b1 == blk * 4096 + byte * 8 + b1 % 8) by (nonlinear_arith)
            requires
                0 <= b1 && b1 / 4096 == blk && (b1 % 4096) / 8 == byte,
        ;
        assert(b2 == blk * 4096 + byte * 8 + b2 % 8) by (nonlinear_arith)
            requires
                0 <= b2 && b2 / 4096 == blk && (b2 % 4096) / 8 == byte,
        ;
    }

    /// How one byte-update of the bitmap area shows up at the bit level.
    proof fn lemma_bit_update(
        &self,
        v1: Seq<Seq<u8>>,
        v2: Seq<Seq<u8>>,
        b: int,
        blk: int,
        byte: int,
        newbyte: u8,
    )
        requires
            0 <= blk < self.blocks,
            0 <= byte < 512,
            0 <= b < self.blocks * 4096,
            self.spec_wf(v1),
            v1[self.start_block_id + blk].len() == 512,
            v2 == v1.update(
                self.start_block_id + blk,
                v1[self.start_block_id + blk].update(byte, newbyte),
            ),
        ensures
            b / 4096 == blk && (b % 4096) / 8 == byte ==> bit_is_set(
                v2,
                self.start_block_id as int,
                b,
            ) == byte_bit(newbyte, (b % 8) as u8),
            !(b / 4096 == blk && (b % 4096) / 8 == byte) ==> bit_is_set(
                v2,
                self.start_block_id as int,
                b,
            ) == bit_is_set(v1, self.start_block_id as int, b),
    {
        let start = self.start_block_id as int;
        assert(0 <= b / 4096 < self.blocks && 0 <= (b % 4096) / 8 < 512 && 0 <= b % 8 < 8)
            by (nonlinear_arith)
            requires
                0 <= b < self.blocks * 4096,
        ;
    }

    /// Clear bit `bit`, which must be set.
    pub fn dealloc(&self, cache: &mut BlockCacheManager, bit: usize)
        requires
            old(cache).wf(),
            self.spec_wf(old(cache)@),
            bit < self.blocks * 4096,
            bit_is_set(old(cache)@, self.start_block_id as int, bit as int),
        ensures
            final(cache).wf(),
            final(cache)@.len() == old(cache)@.len(),
            forall|b: int|
                0 <= b < self.blocks * 4096 ==> bit_is_set(
                    final(cache)@,
                    self.start_block_id as int,
                    b,
                ) == (bit_is_set(old(cache)@, self.start_block_id as int, b) && b != bit),
            forall|blk: int|
                0 <= blk < old(cache)@.len() && !(self.start_block_id <= blk < self.start_block_id
                    + self.blocks) ==> final(cache)@[blk] == old(cache)@[blk],
    {
        proof {
            cache.lemma_view_wf();
            assert(0 <= bit / 4096 < self.blocks && 0 <= (bit % 4096) / 8 < 512 && 0 <= bit % 8
                < 8) by (nonlinear_arith)
                requires
                    0 <= bit < self.blocks * 4096,
            ;
        }
        let ghost v0 = cache@;
        let ghost start = self.start_block_id as int;
        let blk = bit / BLOCK_BITS;
        let byte = (bit % BLOCK_BITS) / 8;
        let pos = (bit % 8) as u8;
        let x = cache.read_byte(self.start_block_id + blk, byte);
        proof {
            lemma_clear_bit(x, pos);
        }
        let newbyte = x - (1u8 << pos);
        cache.write_byte(self.start_block_id + blk, byte, newbyte);
        proof {
            assert forall|b: int|
                0 <= b < self.blocks * 4096 implies bit_is_set(cache@, start, b) == (bit_is_set(
                v0,
                start,
                b,
            ) && b != bit) by {
                self.lemma_bit_update(v0, cache@, b, blk as int, byte as int, newbyte);
                if b / 4096 == blk && (b % 4096) / 8 == byte {
                    lemma_clear_bit(x, pos);
                    if b != bit {
                        self.lemma_bit_same_byte_distinct(b, bit as int, blk as int, byte as int);
                    }
                }
            }
        }
    }
}

} // verus!
