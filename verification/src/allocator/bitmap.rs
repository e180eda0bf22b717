//! Allocation of runs of blocks from the block bitmap. Bit `b % 8` of byte
//! `(b % 32768) / 8` of bitmap block `b / 32768` is set when block `b` is
//! in use.
use crate::error::FsError;
use crate::transaction::{TxContext, BLOCK_SIZE};
use vstd::arithmetic::div_mod::lemma_fundamental_div_mod_converse;
use vstd::prelude::*;

verus! {

broadcast use TxContext::lemma_block_len;

/// Blocks described by one bitmap block.
pub const BITS_PER_BITMAP_BLOCK: u64 = 32768;

/// Bit `bit` of `byte` is set.
pub open spec fn bit_set(byte: u8, bit: u8) -> bool {
    (byte >> bit) & 1u8 == 1u8
}

/// The bitmap block that holds the bit of block `b`.
pub open spec fn bitmap_block_of(bitmap_start: u64, b: int) -> int {
    bitmap_start + b / 32768
}

/// Block `b` is marked in use in the bitmap that starts at `bitmap_start`.
pub open spec fn block_used(c: TxContext, bitmap_start: u64, b: int) -> bool {
    bit_set(c.block(bitmap_block_of(bitmap_start, b) as u64)[(b % 32768) / 8], (b % 8) as u8)
}

/// Blocks `s .. s + count` are all free.
pub open spec fn run_free(c: TxContext, bitmap_start: u64, s: int, count: int) -> bool {
    forall|i: int| s <= i < s + count ==> !#[trigger] block_used(c, bitmap_start, i)
}

/// Blocks `s .. s + count` are free and lie below `total`.
pub open spec fn fits(c: TxContext, bitmap_start: u64, total: int, count: int, s: int) -> bool {
    &&& 0 <= s
    &&& s + count <= total
    &&& run_free(c, bitmap_start, s, count)
}

/// `c1` is `c0` with blocks `start .. start + count` marked used (`set`) or
/// free: no other bit of the bitmap and no other block changes.
pub open spec fn marked(c0: TxContext, c1: TxContext, bitmap_start: u64, start: int, count: int, set: bool) -> bool {
    &&& forall|b: int|
        0 <= b && bitmap_block_of(bitmap_start, b) <= u64::MAX ==> #[trigger] block_used(c1, bitmap_start, b) == (if start
            <= b < start + count {
            set
        } else {
            block_used(c0, bitmap_start, b)
        })
    &&& forall|x: u64|
        !(bitmap_block_of(bitmap_start, start) <= x <= bitmap_block_of(bitmap_start, start + count - 1)) ==> #[trigger] c1.block(
            x,
        ) == c0.block(x)
}

/// Allocating a run and then freeing it gives back the bitmap that the
/// allocation started from: `allocate_extents` takes a free run `s ..
/// s + count` and marks it used (`c0` to `c1`), `free_extents` marks it
/// free again (`c1` to `c2`); every block's bit in `c2` is what it was in
/// `c0`, and no block outside the bitmap blocks of the run changed.
pub proof fn lemma_allocate_then_free(
    c0: TxContext,
    c1: TxContext,
    c2: TxContext,
    bitmap_start: u64,
    total: int,
    count: int,
    s: int,
)
    requires
        fits(c0, bitmap_start, total, count, s),
        marked(c0, c1, bitmap_start, s, count, true),
        marked(c1, c2, bitmap_start, s, count, false),
    ensures
        forall|b: int|
            0 <= b && bitmap_block_of(bitmap_start, b) <= u64::MAX ==> #[trigger] block_used(c2, bitmap_start, b)
                == block_used(c0, bitmap_start, b),
        forall|x: u64|
            !(bitmap_block_of(bitmap_start, s) <= x <= bitmap_block_of(bitmap_start, s + count - 1)) ==> #[trigger] c2.block(
                x,
            ) == c0.block(x),
{
    assert forall|b: int| 0 <= b && bitmap_block_of(bitmap_start, b) <= u64::MAX implies #[trigger] block_used(
        c2,
        bitmap_start,
        b,
    ) == block_used(c0, bitmap_start, b) by {
        assert(block_used(c1, bitmap_start, b) == (if s <= b < s + count {
            true
        } else {
            block_used(c0, bitmap_start, b)
        }));
    }
    assert forall|x: u64|
        !(bitmap_block_of(bitmap_start, s) <= x <= bitmap_block_of(bitmap_start, s + count - 1)) implies #[trigger] c2.block(x)
        == c0.block(x) by {
        assert(c1.block(x) == c0.block(x));
    }
}

proof fn lemma_bits_or(x: u8, k: u8, j: u8)
    requires
        k < 8,
        j < 8,
    ensures
        bit_set(x | (1u8 << k), j) == (j == k || bit_set(x, j)),
{
    assert(((x | (1u8 << k)) >> j) & 1u8 == 1u8 <==> (j == k || (x >> j) & 1u8 == 1u8)) by (bit_vector)
        requires
            k < 8,
            j < 8,
    ;
}

proof fn lemma_bits_clear(x: u8, k: u8, j: u8)
    requires
        k < 8,
        j < 8,
    ensures
        bit_set(x & !(1u8 << k), j) == (j != k && bit_set(x, j)),
{
    assert(((x & !(1u8 << k)) >> j) & 1u8 == 1u8 <==> (j != k && (x >> j) & 1u8 == 1u8)) by (bit_vector)
        requires
            k < 8,
            j < 8,
    ;
}

proof fn lemma_bit_test(x: u8, k: u8)
    requires
        k < 8,
    ensures
        (x & (1u8 << k) == 0) == !bit_set(x, k),
{
    assert((x & (1u8 << k) == 0) <==> !((x >> k) & 1u8 == 1u8)) by (bit_vector)
        requires
            k < 8,
    ;
}

proof fn lemma_full_byte(j: u8)
    requires
        j < 8,
    ensures
        bit_set(0xFFu8, j),
{
    assert((0xFFu8 >> j) & 1u8 == 1u8) by (bit_vector)
        requires
            j < 8,
    ;
}

/// Where the bit of block `bm * 32768 + byte * 8 + bit` lies.
proof fn lemma_position(bm: int, byte: int, bit: int)
    requires
        bm >= 0,
        0 <= byte < 4096,
        0 <= bit < 8,
    ensures
        (bm * 32768 + byte * 8 + bit) / 32768 == bm,
        ((bm * 32768 + byte * 8 + bit) % 32768) / 8 == byte,
        (bm * 32768 + byte * 8 + bit) % 8 == bit,
{
    let b = bm * 32768 + byte * 8 + bit;
    lemma_fundamental_div_mod_converse(b, 32768, bm, byte * 8 + bit);
    lemma_fundamental_div_mod_converse(byte * 8 + bit, 8, byte, bit);
    assert(b == (bm * 4096 + byte) * 8 + bit) by (nonlinear_arith)
        requires
            b == bm * 32768 + byte * 8 + bit,
    ;
    lemma_fundamental_div_mod_converse(b, 8, bm * 4096 + byte, bit);
}

/// Splits a block number into bitmap block, byte and bit.
proof fn lemma_split(b: int)
    requires
        b >= 0,
    ensures
        b == (b / 32768) * 32768 + ((b % 32768) / 8) * 8 + b % 8,
        0 <= (b % 32768) / 8 < 4096,
        0 <= b % 8 < 8,
        b % 8 == (b % 32768) % 8,
{
    let m = b % 32768;
    assert(b == (b / 32768) * 32768 + m) by {
        vstd::arithmetic::div_mod::lemma_fundamental_div_mod(b, 32768);
    }
    assert(m == (m / 8) * 8 + m % 8) by {
        vstd::arithmetic::div_mod::lemma_fundamental_div_mod(m, 8);
    }
    assert(b == ((b / 32768) * 4096 + m / 8) * 8 + m % 8) by (nonlinear_arith)
        requires
            b == (b / 32768) * 32768 + m,
            m == (m / 8) * 8 + m % 8,
    ;
    lemma_fundamental_div_mod_converse(b, 8, (b / 32768) * 4096 + m / 8, m % 8);
}

/// The state of a first-fit scan that has looked at blocks below `p` (and
/// below `total`): the last `run` of them are free, the one before those (if
/// any) is used, and no run of `count` free blocks ends before that point.
pub open spec fn scan_ok(c: TxContext, bitmap_start: u64, total: int, count: int, p: int, run: int, run_start: int) -> bool {
    let q = if p < total { p } else { total };
    &&& 0 <= run < count
    &&& run <= q
    &&& run > 0 ==> run_start + run == q
    &&& forall|i: int| q - run <= i < q ==> !#[trigger] block_used(c, bitmap_start, i)
    &&& (p < total && q - run > 0) ==> block_used(c, bitmap_start, q - run - 1)
    &&& forall|t: int| 0 <= t && t + count <= q ==> !#[trigger] run_free(c, bitmap_start, t, count)
}

pub struct Allocator;

impl Allocator {
    /// Allocates the first run of `count` free blocks below `total_blocks`,
    /// marks it used and returns its first block.
    pub fn allocate_extents(ctx: &mut TxContext, bitmap_start: u64, total_blocks: u64, count: u64) -> (r: Result<u64, FsError>)
        requires
            total_blocks + 32767 <= u64::MAX,
            bitmap_start + (total_blocks + 32767) / 32768 <= u64::MAX,
        ensures
            count == 0 ==> r == Err::<u64, FsError>(FsError::InvalidInput) && *final(ctx) == *old(ctx),
            count > 0 ==> match r {
                Ok(s) => {
                    &&& fits(*old(ctx), bitmap_start, total_blocks as int, count as int, s as int)
                    &&& forall|t: int| 0 <= t < s ==> !#[trigger] fits(*old(ctx), bitmap_start, total_blocks as int, count as int, t)
                    &&& marked(*old(ctx), *final(ctx), bitmap_start, s as int, count as int, true)
                },
                Err(e) => {
                    &&& e == FsError::OutOfMemory
                    &&& forall|t: int| !#[trigger] fits(*old(ctx), bitmap_start, total_blocks as int, count as int, t)
                    &&& *final(ctx) == *old(ctx)
                },
            },
    {
        if count == 0 {
            return Err(FsError::InvalidInput);
        }
        let ghost c0 = *ctx;
        let ghost total = total_blocks as int;
        let ghost cnt = count as int;
        let total_bitmap_blocks = (total_blocks + 32767) / 32768;
        let mut current_run: u64 = 0;
        let mut run_start_block: u64 = 0;
        let mut bm_idx: u64 = 0;
        while bm_idx < total_bitmap_blocks
            invariant
                *ctx == c0,
                *old(ctx) == c0,
                total == total_blocks,
                cnt == count,
                count > 0,
                total_blocks + 32767 <= u64::MAX,
                total_bitmap_blocks == (total_blocks + 32767) / 32768,
                bitmap_start + total_bitmap_blocks <= u64::MAX,
                bm_idx <= total_bitmap_blocks,
                scan_ok(c0, bitmap_start, total, cnt, bm_idx * 32768, current_run as int, run_start_block as int),
            decreases total_bitmap_blocks - bm_idx,
        {
            let buf = ctx.read_block(bitmap_start + bm_idx);
            let mut byte_idx: usize = 0;
            while byte_idx < BLOCK_SIZE
                invariant
                    *ctx == c0,
                    *old(ctx) == c0,
                    total == total_blocks,
                    cnt == count,
                    count > 0,
                    bm_idx < total_bitmap_blocks,
                    bitmap_start + total_bitmap_blocks <= u64::MAX,
                    total_bitmap_blocks <= u64::MAX / 32768,
                    buf@ == c0.block((bitmap_start + bm_idx) as u64),
                    byte_idx <= BLOCK_SIZE,
                    scan_ok(c0, bitmap_start, total, cnt, bm_idx * 32768 + byte_idx * 8, current_run as int, run_start_block as int),
                decreases BLOCK_SIZE - byte_idx,
            {
                let byte = buf[byte_idx];
                let ghost base = bm_idx * 32768 + byte_idx * 8;
                if byte == 0xFF {
                    proof {
                        let q0 = if base < total { base } else { total };
                        let q1 = if base + 8 < total { base + 8 } else { total };
                        assert forall|i: int| q0 <= i < q1 implies block_used(c0, bitmap_start, i) by {
                            let k = i - base;
                            lemma_position(bm_idx as int, byte_idx as int, k);
                            lemma_full_byte(k as u8);
                        }
                        assert forall|t: int| 0 <= t && t + cnt <= q1 implies !#[trigger] run_free(c0, bitmap_start, t, cnt) by {
                            if t + cnt > q0 {
                                assert(block_used(c0, bitmap_start, t + cnt - 1));
                            }
                        }
                    }
                    current_run = 0;
                    byte_idx = byte_idx + 1;
                    continue;
                }
                let mut bit_idx: u64 = 0;
                while bit_idx < 8
                    invariant
                        *ctx == c0,
                        *old(ctx) == c0,
                        total == total_blocks,
                        cnt == count,
                        count > 0,
                        bm_idx < total_bitmap_blocks,
                        total_bitmap_blocks <= u64::MAX / 32768,
                        byte_idx < BLOCK_SIZE,
                        byte == c0.block((bitmap_start + bm_idx) as u64)[byte_idx as int],
                        bitmap_start + total_bitmap_blocks <= u64::MAX,
                        base == bm_idx * 32768 + byte_idx * 8,
                        bit_idx <= 8,
                        scan_ok(c0, bitmap_start, total, cnt, base + bit_idx, current_run as int, run_start_block as int),
                    ensures
                        scan_ok(c0, bitmap_start, total, cnt, base + 8, current_run as int, run_start_block as int),
                    decreases 8 - bit_idx,
                {
                    let absolute_block = (bm_idx * 32768) + (byte_idx as u64 * 8) + bit_idx;
                    if absolute_block >= total_blocks {
                        proof {
                            assert(base + bit_idx >= total);
                            let r = current_run as int;
                            assert forall|i: int| total - r <= i < total implies !#[trigger] block_used(c0, bitmap_start, i) by {
                            }
                            assert forall|t: int| 0 <= t && t + cnt <= total implies !#[trigger] run_free(c0, bitmap_start, t, cnt) by {
                            }
                        }
                        break;
                    }
                    let ghost p = absolute_block as int;
                    let ghost run0 = current_run as int;
                    proof {
                        lemma_position(bm_idx as int, byte_idx as int, bit_idx as int);
                        lemma_bit_test(byte, bit_idx as u8);
                        assert(block_used(c0, bitmap_start, p) == bit_set(byte, bit_idx as u8));
                    }
                    if (byte & (1u8 << (bit_idx as u8))) == 0 {
                        if current_run == 0 {
                            run_start_block = absolute_block;
                        }
                        current_run = current_run + 1;
                        if current_run == count {
                            proof {
                                let s = run_start_block as int;
                                assert(s == p - run0);
                                assert forall|i: int| s <= i < s + cnt implies !#[trigger] block_used(c0, bitmap_start, i) by {
                                    if i < p {
                                        assert(p - run0 <= i);
                                    }
                                }
                                assert(run_free(c0, bitmap_start, s, cnt));
                                assert forall|t: int| 0 <= t < s implies !#[trigger] fits(c0, bitmap_start, total, cnt, t) by {
                                    assert(t + cnt <= p);
                                }
                                vstd::arithmetic::div_mod::lemma_div_is_ordered((s + cnt - 1) as int, (total_blocks + 32767) as int, 32768);
                            }
                            match Self::mark_blocks_used(ctx, bitmap_start, run_start_block, count) {
                                Ok(()) => {},
                                Err(e) => {
                                    return Err(e);
                                },
                            }
                            return Ok(run_start_block);
                        }
                        proof {
                            assert forall|t: int| 0 <= t && t + cnt <= p + 1 implies !#[trigger] run_free(c0, bitmap_start, t, cnt) by {
                                if t + cnt == p + 1 {
                                    assert(block_used(c0, bitmap_start, p - (current_run - 1) - 1));
                                }
                            }
                        }
                    } else {
                        current_run = 0;
                        proof {
                            assert forall|t: int| 0 <= t && t + cnt <= p + 1 implies !#[trigger] run_free(c0, bitmap_start, t, cnt) by {
                                if t + cnt == p + 1 {
                                    assert(block_used(c0, bitmap_start, p));
                                }
                            }
                        }
                    }
                    bit_idx = bit_idx + 1;
                }
                byte_idx = byte_idx + 1;
            }
            bm_idx = bm_idx + 1;
        }
        proof {
            assert(bm_idx * 32768 >= total) by {
                vstd::arithmetic::div_mod::lemma_fundamental_div_mod((total_blocks + 32767) as int, 32768);
            }
            assert forall|t: int| !#[trigger] fits(c0, bitmap_start, total, cnt, t) by {
                if fits(c0, bitmap_start, total, cnt, t) {
                    assert(!run_free(c0, bitmap_start, t, cnt));
                }
            }
        }
        Err(FsError::OutOfMemory)
    }

    /// Marks blocks `start .. start + count` free.
    pub fn free_extents(ctx: &mut TxContext, bitmap_start: u64, start: u64, count: u64) -> (r: Result<(), FsError>)
        requires
            start + count <= u64::MAX,
            count > 0 ==> bitmap_start + (start + count - 1) / 32768 <= u64::MAX,
        ensures
            r is Ok,
            marked(*old(ctx), *final(ctx), bitmap_start, start as int, count as int, false),
            count == 0 ==> *final(ctx) == *old(ctx),
    {
        Self::mark_blocks_free(ctx, bitmap_start, start, count)
    }

    fn mark_blocks_used(ctx: &mut TxContext, bitmap_start: u64, start: u64, count: u64) -> (r: Result<(), FsError>)
        requires
            start + count <= u64::MAX,
            count > 0 ==> bitmap_start + (start + count - 1) / 32768 <= u64::MAX,
        ensures
            r is Ok,
            marked(*old(ctx), *final(ctx), bitmap_start, start as int, count as int, true),
            count == 0 ==> *final(ctx) == *old(ctx),
    {
        Self::modify_blocks(ctx, bitmap_start, start, count, true)
    }

    fn mark_blocks_free(ctx: &mut TxContext, bitmap_start: u64, start: u64, count: u64) -> (r: Result<(), FsError>)
        requires
            start + count <= u64::MAX,
            count > 0 ==> bitmap_start + (start + count - 1) / 32768 <= u64::MAX,
        ensures
            r is Ok,
            marked(*old(ctx), *final(ctx), bitmap_start, start as int, count as int, false),
            count == 0 ==> *final(ctx) == *old(ctx),
    {
        Self::modify_blocks(ctx, bitmap_start, start, count, false)
    }

    /// Marks blocks `start .. start + count` used (`set`) or free in the
    /// bitmap, each bitmap block read and written once.
    fn modify_blocks(ctx: &mut TxContext, bitmap_start: u64, start: u64, count: u64, set: bool) -> (r: Result<(), FsError>)
        requires
            start + count <= u64::MAX,
            count > 0 ==> bitmap_start + (start + count - 1) / 32768 <= u64::MAX,
        ensures
            r is Ok,
            marked(*old(ctx), *final(ctx), bitmap_start, start as int, count as int, set),
            count == 0 ==> *final(ctx) == *old(ctx),
    {
        let ghost c0 = *ctx;
        let mut current_bm_idx: u64 = u64::MAX;
        let mut buf: Vec<u8> = vec![0u8; BLOCK_SIZE];
        let mut modified = false;
        let mut i: u64 = 0;
        while i < count
            invariant
                start + count <= u64::MAX,
                count > 0 ==> bitmap_start + (start + count - 1) / 32768 <= u64::MAX,
                i <= count,
                buf@.len() == BLOCK_SIZE,
                modified == (i > 0),
                i == 0 ==> current_bm_idx == u64::MAX && *ctx == c0,
                i > 0 ==> current_bm_idx == (start + i - 1) / 32768,
                // What the bitmap says once `buf` is written back.
                forall|b: int|
                    0 <= b && #[trigger] bitmap_block_of(bitmap_start, b) <= u64::MAX ==> (if modified && b / 32768
                        == current_bm_idx {
                        bit_set(buf@[(b % 32768) / 8], (b % 8) as u8)
                    } else {
                        block_used(*ctx, bitmap_start, b)
                    }) == (if start <= b < start + i {
                        set
                    } else {
                        block_used(c0, bitmap_start, b)
                    }),
                forall|x: u64|
                    !(bitmap_block_of(bitmap_start, start as int) <= x <= bitmap_block_of(
                        bitmap_start,
                        start + count - 1,
                    )) ==> #[trigger] ctx.block(x) == c0.block(x),
            decreases count - i,
        {
            let block = start + i;
            let bm_idx = block / 32768;
            let byte_idx = ((block % 32768) / 8) as usize;
            let bit_idx = block % 8;
            proof {
                vstd::arithmetic::div_mod::lemma_div_is_ordered(block as int, (start + count - 1) as int, 32768);
                vstd::arithmetic::div_mod::lemma_div_is_ordered(start as int, block as int, 32768);
                if i > 0 {
                    vstd::arithmetic::div_mod::lemma_div_is_ordered((start + i - 1) as int, block as int, 32768);
                }
            }
            let ghost ctx_pre = *ctx;
            let ghost buf_pre = buf@;
            let ghost cur_pre = current_bm_idx;
            let ghost mod_pre = modified;
            if bm_idx != current_bm_idx {
                if modified {
                    ctx.write_block(bitmap_start + current_bm_idx, buf.as_slice());
                }
                buf = ctx.read_block(bitmap_start + bm_idx);
                current_bm_idx = bm_idx;
                modified = false;
            }
            proof {
                // The bitmap as it stands, with `buf` holding block `bm_idx`.
                assert forall|b: int|
                    0 <= b && #[trigger] bitmap_block_of(bitmap_start, b) <= u64::MAX implies (if b / 32768 == bm_idx {
                        bit_set(buf@[(b % 32768) / 8], (b % 8) as u8)
                    } else {
                        block_used(*ctx, bitmap_start, b)
                    }) == (if start <= b < start + i {
                        set
                    } else {
                        block_used(c0, bitmap_start, b)
                    }) by {
                    let tgt = if start <= b < start + i {
                        set
                    } else {
                        block_used(c0, bitmap_start, b)
                    };
                    let blk = bitmap_block_of(bitmap_start, b) as u64;
                    let pre_val = if mod_pre && b / 32768 == cur_pre {
                        bit_set(buf_pre[(b % 32768) / 8], (b % 8) as u8)
                    } else {
                        block_used(ctx_pre, bitmap_start, b)
                    };
                    assert(pre_val == tgt);
                    if b / 32768 == bm_idx {
                        if cur_pre == bm_idx {
                            assert(mod_pre);
                            assert(buf@ == buf_pre);
                        } else {
                            assert(blk == bitmap_start + bm_idx);
                            assert(buf@ == ctx.block(blk));
                            if mod_pre {
                                assert(blk != bitmap_start + cur_pre);
                            }
                            assert(ctx.block(blk) == ctx_pre.block(blk));
                        }
                    } else {
                        if mod_pre && b / 32768 == cur_pre {
                            assert(blk == bitmap_start + cur_pre);
                            assert(ctx.block(blk) == buf_pre);
                        } else if mod_pre && cur_pre != bm_idx {
                            assert(blk != bitmap_start + cur_pre);
                            assert(ctx.block(blk) == ctx_pre.block(blk));
                        } else {
                            assert(ctx.block(blk) == ctx_pre.block(blk));
                        }
                    }
                }
                assert forall|x: u64|
                    !(bitmap_block_of(bitmap_start, start as int) <= x <= bitmap_block_of(
                        bitmap_start,
                        start + count - 1,
                    )) implies #[trigger] ctx.block(x) == c0.block(x) by {
                    if mod_pre && cur_pre != bm_idx {
                        vstd::arithmetic::div_mod::lemma_div_is_ordered(start as int, (start + i - 1) as int, 32768);
                        vstd::arithmetic::div_mod::lemma_div_is_ordered((start + i - 1) as int, (start + count - 1) as int, 32768);
                        assert(x != bitmap_start + cur_pre);
                        assert(ctx.block(x) == ctx_pre.block(x));
                    }
                }
            }
            let ghost before = buf@;
            let old_byte = buf[byte_idx];
            if set {
                buf.set(byte_idx, old_byte | (1u8 << (bit_idx as u8)));
            } else {
                buf.set(byte_idx, old_byte & !(1u8 << (bit_idx as u8)));
            }
            modified = true;
            proof {
                lemma_split(block as int);
                assert forall|b: int|
                    0 <= b && #[trigger] bitmap_block_of(bitmap_start, b) <= u64::MAX implies (if modified && b / 32768
                        == current_bm_idx {
                        bit_set(buf@[(b % 32768) / 8], (b % 8) as u8)
                    } else {
                        block_used(*ctx, bitmap_start, b)
                    }) == (if start <= b < start + i + 1 {
                        set
                    } else {
                        block_used(c0, bitmap_start, b)
                    }) by {
                    assert(block_used(*ctx, bitmap_start, b) == block_used(*ctx, bitmap_start, b));
                    if b / 32768 == current_bm_idx {
                        lemma_split(b);
                        let bb = (b % 32768) / 8;
                        let kk = (b % 8) as u8;
                        if bb == byte_idx {
                            if set {
                                lemma_bits_or(old_byte, bit_idx as u8, kk);
                            } else {
                                lemma_bits_clear(old_byte, bit_idx as u8, kk);
                            }
                            if kk == bit_idx as u8 {
                                assert(b == block);
                            }
                        } else {
                            assert(buf@[bb] == before[bb]);
                        }
                    }
                }
            }
            i = i + 1;
        }
        let ghost ctx_pre = *ctx;
        if modified {
            ctx.write_block(bitmap_start + current_bm_idx, buf.as_slice());
        }
        proof {
            let c1 = *ctx;
            if modified {
                vstd::arithmetic::div_mod::lemma_div_is_ordered(start as int, (start + count - 1) as int, 32768);
            }
            assert forall|x: u64|
                !(bitmap_block_of(bitmap_start, start as int) <= x <= bitmap_block_of(
                    bitmap_start,
                    start + count - 1,
                )) implies #[trigger] c1.block(x) == c0.block(x) by {
                assert(ctx_pre.block(x) == c0.block(x));
            }
            assert forall|b: int|
                0 <= b && bitmap_block_of(bitmap_start, b) <= u64::MAX implies #[trigger] block_used(c1, bitmap_start, b) == (if start
                    <= b < start + count {
                    set
                } else {
                    block_used(c0, bitmap_start, b)
                }) by {
                assert(block_used(ctx_pre, bitmap_start, b) == block_used(ctx_pre, bitmap_start, b));
                if modified && b / 32768 == current_bm_idx {
                    assert(bitmap_block_of(bitmap_start, b) == bitmap_start + current_bm_idx);
                } else if modified {
                    assert(c1.block(bitmap_block_of(bitmap_start, b) as u64) == ctx_pre.block(
                        bitmap_block_of(bitmap_start, b) as u64,
                    ));
                }
            }
        }
        Ok(())
    }
}

} // verus!
