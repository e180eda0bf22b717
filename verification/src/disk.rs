//! The encrypted block store behind the mounted filesystem: how a block is
//! framed and encrypted, the superblock, the block bitmap and the inode
//! table. Reading and writing the image file is left to the caller.
use crate::allocator::bitmap::bit_set;
use crate::codec::{get_u32, get_u64, put_u32, put_u64, put_zeros, set_bytes, splice};
use crate::inode::{u32_at, u64_at, DiskInode, PAYLOAD_SIZE};
use chacha20::cipher::{KeyIvInit, StreamCipher};
use vstd::bytes::*;
use vstd::prelude::*;

verus! {

pub const BLOCK_SIZE: usize = 4096;

pub const TOTAL_BLOCKS: u32 = 32640;

/// "LION"
pub const MAGIC: u32 = 0x4C494F4E;

/// The key every block is encrypted with.
pub const MASTER_KEY: [u8; 32] = [
    0x4c, 0x69, 0x6f, 0x6e, 0x46, 0x53, 0x4d, 0x61, 0x73, 0x74, 0x65, 0x72, 0x4b, 0x65, 0x79, 0x46,
    0x6f, 0x72, 0x45, 0x6e, 0x63, 0x72, 0x79, 0x70, 0x74, 0x69, 0x6f, 0x6e, 0x33, 0x32, 0x42, 0x21,
];

/// Inodes per inode-table block.
pub const INODES_PER_BLOCK: u64 = 15;

/// `data` XORed with the ChaCha20 keystream of `key` and `nonce`.
pub uninterp spec fn chacha20_xor(key: Seq<u8>, nonce: Seq<u8>, data: Seq<u8>) -> Seq<u8>;

/// Applies the ChaCha20 keystream of `key` and `nonce` to a copy of `data`
/// (`ChaCha20::new`, then `apply_keystream`). The result has the length of
/// the data, and the same keystream applied to it gives the data back.
#[verifier::external_body]
fn chacha20_apply(key: &[u8; 32], nonce: &[u8; 12], data: &[u8]) -> (r: Vec<u8>)
    requires
        data@.len() <= BLOCK_SIZE,
    ensures
        r@ == chacha20_xor(key@, nonce@, data@),
        r@.len() == data@.len(),
        chacha20_xor(key@, nonce@, r@) == data@,
{
    let mut out = data.to_vec();
    let mut cipher = chacha20::ChaCha20::new(&(*key).into(), &(*nonce).into());
    cipher.apply_keystream(&mut out);
    out
}

/// All bytes of `s` are zero.
pub open spec fn all_zero(s: Seq<u8>) -> bool {
    forall|i: int| 0 <= i < s.len() ==> s[i] == 0
}

/// Every byte of `payload` is zero.
pub fn payload_is_zero(payload: &[u8]) -> (r: bool)
    ensures
        r == all_zero(payload@),
{
    let mut i: usize = 0;
    while i < payload.len()
        invariant
            i <= payload@.len(),
            forall|j: int| 0 <= j < i ==> payload@[j] == 0,
        decreases payload@.len() - i,
    {
        if payload[i] != 0 {
            return false;
        }
        i = i + 1;
    }
    true
}

/// The block stored for `payload`: the nonce, four zero bytes, then the
/// payload encrypted under the nonce. An all-zero payload is stored as it is,
/// with a zero nonce.
pub open spec fn sealed(payload: Seq<u8>, nonce: Seq<u8>) -> Seq<u8> {
    if all_zero(payload) {
        Seq::new(16, |i: int| 0u8) + payload
    } else {
        nonce + Seq::new(4, |i: int| 0u8) + chacha20_xor(MASTER_KEY@, nonce, payload)
    }
}

/// The payload that the stored block `raw` holds: decrypted, unless its
/// nonce is zero.
pub open spec fn opened(raw: Seq<u8>) -> Seq<u8> {
    let nonce = raw.subrange(0, 12);
    let body = raw.subrange(16, raw.len() as int);
    if all_zero(nonce) {
        body
    } else {
        chacha20_xor(MASTER_KEY@, nonce, body)
    }
}

/// Frames `payload` for storage, encrypting it under `nonce` unless it is
/// all zero.
pub fn seal_block(payload: &[u8], nonce: [u8; 12]) -> (r: Vec<u8>)
    requires
        payload@.len() == PAYLOAD_SIZE,
    ensures
        r@ == sealed(payload@, nonce@),
        r@.len() == BLOCK_SIZE,
{
    let mut block: Vec<u8> = Vec::new();
    if payload_is_zero(payload) {
        put_zeros(&mut block, 16);
        let mut i: usize = 0;
        while i < payload.len()
            invariant
                i <= payload@.len(),
                block@ =~= Seq::new(16, |i: int| 0u8) + payload@.subrange(0, i as int),
            decreases payload@.len() - i,
        {
            block.push(payload[i]);
            i = i + 1;
        }
        assert(payload@.subrange(0, payload@.len() as int) =~= payload@);
    } else {
        let mut i: usize = 0;
        while i < 12
            invariant
                i <= 12,
                block@ =~= nonce@.subrange(0, i as int),
            decreases 12 - i,
        {
            block.push(nonce[i]);
            i = i + 1;
        }
        assert(nonce@.subrange(0, 12) =~= nonce@);
        put_zeros(&mut block, 4);
        let key = MASTER_KEY;
        let enc = chacha20_apply(&key, &nonce, payload);
        let ghost pre = block@;
        let mut j: usize = 0;
        while j < enc.len()
            invariant
                j <= enc@.len(),
                block@ =~= pre + enc@.subrange(0, j as int),
            decreases enc@.len() - j,
        {
            block.push(enc[j]);
            j = j + 1;
        }
        assert(enc@.subrange(0, enc@.len() as int) =~= enc@);
    }
    block
}

/// The payload of the stored block `raw`.
pub fn open_block(raw: &[u8]) -> (r: Vec<u8>)
    requires
        raw@.len() == BLOCK_SIZE,
    ensures
        r@ == opened(raw@),
{
    let len = raw.len();
    let mut nonce = [0u8; 12];
    let mut i: usize = 0;
    while i < 12
        invariant
            len == raw@.len() == BLOCK_SIZE,
            i <= 12,
            forall|j: int| 0 <= j < i ==> #[trigger] nonce[j] == raw@[j],
        decreases 12 - i,
    {
        nonce[i] = raw[i];
        i = i + 1;
    }
    assert(nonce@ =~= raw@.subrange(0, 12));
    let mut body: Vec<u8> = Vec::new();
    let mut k: usize = 16;
    while k < len
        invariant
            len == raw@.len() == BLOCK_SIZE,
            16 <= k <= len,
            body@ =~= raw@.subrange(16, k as int),
        decreases len - k,
    {
        body.push(raw[k]);
        k = k + 1;
    }
    if payload_is_zero(nonce.as_slice()) {
        body
    } else {
        let key = MASTER_KEY;
        chacha20_apply(&key, &nonce, body.as_slice())
    }
}

/// A block read back is the payload that was written, whenever the nonce it
/// was sealed with is not zero (or the payload is all zero).
pub proof fn lemma_open_sealed(payload: Seq<u8>, nonce: Seq<u8>)
    requires
        payload.len() == PAYLOAD_SIZE,
        nonce.len() == 12,
        !all_zero(nonce) || all_zero(payload),
        chacha20_xor(MASTER_KEY@, nonce, chacha20_xor(MASTER_KEY@, nonce, payload)) == payload,
    ensures
        opened(sealed(payload, nonce)) == payload,
{
    let raw = sealed(payload, nonce);
    if all_zero(payload) {
        assert(raw.subrange(0, 12) =~= Seq::new(12, |i: int| 0u8));
        assert(raw.subrange(16, raw.len() as int) =~= payload);
    } else {
        assert(raw.subrange(0, 12) =~= nonce);
        assert(raw.subrange(16, raw.len() as int) =~= chacha20_xor(MASTER_KEY@, nonce, payload));
    }
}

/// The superblock of the block store.
#[derive(Copy, Clone, Debug, PartialEq, Eq, Structural)]
pub struct Superblock {
    pub magic: u32,
    pub block_size: u32,
    pub total_blocks: u32,
    pub free_blocks: u32,
    pub root_ino: u64,
}

/// The payload that stores `sb`: its fields in order, little-endian, then
/// zeros.
pub open spec fn superblock_payload(sb: Superblock) -> Seq<u8> {
    spec_u32_to_le_bytes(sb.magic) + spec_u32_to_le_bytes(sb.block_size) + spec_u32_to_le_bytes(sb.total_blocks)
        + spec_u32_to_le_bytes(sb.free_blocks) + spec_u64_to_le_bytes(sb.root_ino) + Seq::new(
        (PAYLOAD_SIZE - 24) as nat,
        |i: int| 0u8,
    )
}

impl Superblock {
    /// The superblock of a freshly formatted store: 35 blocks (the
    /// superblock, its backup, the bitmap and the inode table) in use.
    pub fn format() -> (r: Self)
        ensures
            r == (Superblock {
                magic: MAGIC,
                block_size: BLOCK_SIZE as u32,
                total_blocks: TOTAL_BLOCKS,
                free_blocks: (TOTAL_BLOCKS - 35) as u32,
                root_ino: 1,
            }),
    {
        Superblock { magic: MAGIC, block_size: 4096, total_blocks: TOTAL_BLOCKS, free_blocks: TOTAL_BLOCKS - 35, root_ino: 1 }
    }

    /// The payload that stores the superblock: its fields, then zeros.
    pub fn to_payload(&self) -> (out: Vec<u8>)
        ensures
            out@ == superblock_payload(*self),
            out@.len() == PAYLOAD_SIZE,
            u32_at(out@, 0) == self.magic,
            u32_at(out@, 4) == self.block_size,
            u32_at(out@, 8) == self.total_blocks,
            u32_at(out@, 12) == self.free_blocks,
            u64_at(out@, 16) == self.root_ino,
            all_zero(out@.subrange(24, PAYLOAD_SIZE as int)),
    {
        let mut out: Vec<u8> = Vec::new();
        put_u32(&mut out, self.magic);
        put_u32(&mut out, self.block_size);
        put_u32(&mut out, self.total_blocks);
        put_u32(&mut out, self.free_blocks);
        put_u64(&mut out, self.root_ino);
        put_zeros(&mut out, PAYLOAD_SIZE - 24);
        proof {
            lemma_auto_spec_u64_to_from_le_bytes();
            lemma_auto_spec_u32_to_from_le_bytes();
            let b = out@;
            assert(b.subrange(0, 4) =~= spec_u32_to_le_bytes(self.magic));
            assert(b.subrange(4, 8) =~= spec_u32_to_le_bytes(self.block_size));
            assert(b.subrange(8, 12) =~= spec_u32_to_le_bytes(self.total_blocks));
            assert(b.subrange(12, 16) =~= spec_u32_to_le_bytes(self.free_blocks));
            assert(b.subrange(16, 24) =~= spec_u64_to_le_bytes(self.root_ino));
            assert(b =~= superblock_payload(*self));
        }
        out
    }

    /// The superblock stored in `payload`.
    pub fn from_payload(payload: &[u8]) -> (r: Self)
        requires
            payload@.len() >= 24,
        ensures
            r.magic == u32_at(payload@, 0),
            r.block_size == u32_at(payload@, 4),
            r.total_blocks == u32_at(payload@, 8),
            r.free_blocks == u32_at(payload@, 12),
            r.root_ino == u64_at(payload@, 16),
    {
        Superblock {
            magic: get_u32(payload, 0),
            block_size: get_u32(payload, 4),
            total_blocks: get_u32(payload, 8),
            free_blocks: get_u32(payload, 12),
            root_ino: get_u64(payload, 16),
        }
    }
}

/// Bit `b` of the block bitmap `bitmap` is set: block `b` is in use.
pub open spec fn bitmap_bit(bitmap: Seq<u8>, b: int) -> bool {
    bit_set(bitmap[b / 8], (b % 8) as u8)
}

proof fn lemma_set_bit(x: u8, k: u8, j: u8)
    requires
        k < 8,
        j < 8,
    ensures
        bit_set(x | (1u8 << k), j) == (j == k || bit_set(x, j)),
        bit_set(x & !(1u8 << k), j) == (j != k && bit_set(x, j)),
        (x & (1u8 << k) == 0) == !bit_set(x, k),
        bit_set(0u8, j) == false,
        bit_set(0xFFu8, j),
{
    assert(((x | (1u8 << k)) >> j) & 1u8 == 1u8 <==> (j == k || (x >> j) & 1u8 == 1u8)) by (bit_vector)
        requires
            k < 8,
            j < 8,
    ;
    assert(((x & !(1u8 << k)) >> j) & 1u8 == 1u8 <==> (j != k && (x >> j) & 1u8 == 1u8)) by (bit_vector)
        requires
            k < 8,
            j < 8,
    ;
    assert((x & (1u8 << k) == 0) <==> !((x >> k) & 1u8 == 1u8)) by (bit_vector)
        requires
            k < 8,
    ;
    assert(!((0u8 >> j) & 1u8 == 1u8)) by (bit_vector);
    assert((0xFFu8 >> j) & 1u8 == 1u8) by (bit_vector)
        requires
            j < 8,
    ;
}

/// The bitmap of a freshly formatted store: blocks 0 to 33 and the backup
/// superblock in use.
pub fn initial_bitmap() -> (r: Vec<u8>)
    ensures
        r@.len() == PAYLOAD_SIZE,
        forall|b: int| 0 <= b < TOTAL_BLOCKS ==> #[trigger] bitmap_bit(r@, b) == (b < 34 || b == TOTAL_BLOCKS - 1),
{
    let mut bitmap: Vec<u8> = vec![0u8; PAYLOAD_SIZE];
    proof {
        assert forall|b: int| 0 <= b < TOTAL_BLOCKS implies #[trigger] bitmap_bit(bitmap@, b) == (b < 0) by {
            lemma_set_bit(0u8, 0u8, (b % 8) as u8);
        }
    }
    let mut i: usize = 0;
    while i < 34
        invariant
            i <= 34,
            bitmap@.len() == PAYLOAD_SIZE,
            forall|b: int| 0 <= b < TOTAL_BLOCKS ==> #[trigger] bitmap_bit(bitmap@, b) == (b < i),
        decreases 34 - i,
    {
        let byte_idx = i / 8;
        let bit_idx = i % 8;
        let ghost before = bitmap@;
        let v = bitmap[byte_idx] | (1u8 << (bit_idx as u8));
        bitmap.set(byte_idx, v);
        proof {
            assert forall|b: int| 0 <= b < TOTAL_BLOCKS implies #[trigger] bitmap_bit(bitmap@, b) == (b < i + 1) by {
                lemma_set_bit(before[byte_idx as int], bit_idx as u8, (b % 8) as u8);
                if b / 8 != byte_idx {
                    assert(bitmap@[b / 8] == before[b / 8]);
                    assert(bitmap_bit(before, b) == (b < i));
                    assert(b != i);
                } else if b % 8 == bit_idx {
                    assert(b == i);
                } else {
                    assert(b != i);
                    assert(bitmap_bit(before, b) == (b < i));
                }
            }
        }
        i = i + 1;
    }
    let backup_idx = (TOTAL_BLOCKS - 1) as usize;
    let ghost before = bitmap@;
    let v = bitmap[backup_idx / 8] | (1u8 << ((backup_idx % 8) as u8));
    bitmap.set(backup_idx / 8, v);
    proof {
        assert forall|b: int| 0 <= b < TOTAL_BLOCKS implies #[trigger] bitmap_bit(bitmap@, b) == (b < 34 || b == TOTAL_BLOCKS - 1) by {
            lemma_set_bit(before[(backup_idx / 8) as int], (backup_idx % 8) as u8, (b % 8) as u8);
            if b / 8 != backup_idx / 8 {
                assert(bitmap@[b / 8] == before[b / 8]);
                assert(bitmap_bit(before, b) == (b < 34));
            } else {
                assert(bitmap_bit(before, b) == (b < 34));
            }
        }
    }
    bitmap
}

/// Releasing the block that `bitmap_take_first_free` took, when it is not
/// block 0, succeeds and gives back the bitmap's bits as they were.
pub proof fn lemma_take_then_release(m0: Seq<u8>, m1: Seq<u8>, m2: Seq<u8>, b: u32)
    requires
        b < TOTAL_BLOCKS,
        b != 0,
        !bitmap_bit(m0, b as int),
        forall|c: int| 0 <= c < TOTAL_BLOCKS ==> #[trigger] bitmap_bit(m1, c) == (c == b || bitmap_bit(m0, c)),
        forall|c: int|
            0 <= c < TOTAL_BLOCKS ==> #[trigger] bitmap_bit(m2, c) == (if (b != 0 && b < TOTAL_BLOCKS && bitmap_bit(m1, b as int))
                && c == b {
                false
            } else {
                bitmap_bit(m1, c)
            }),
    ensures
        bitmap_bit(m1, b as int),
        forall|c: int| 0 <= c < TOTAL_BLOCKS ==> #[trigger] bitmap_bit(m2, c) == bitmap_bit(m0, c),
{
    assert(bitmap_bit(m1, b as int));
}

/// Marks the first free block of the bitmap in use and returns it.
pub fn bitmap_take_first_free(bitmap: &mut Vec<u8>) -> (r: Option<u32>)
    requires
        old(bitmap)@.len() == PAYLOAD_SIZE,
    ensures
        final(bitmap)@.len() == PAYLOAD_SIZE,
        match r {
            Some(b) => {
                &&& b < TOTAL_BLOCKS
                &&& !bitmap_bit(old(bitmap)@, b as int)
                &&& forall|c: int| 0 <= c < b ==> #[trigger] bitmap_bit(old(bitmap)@, c)
                &&& forall|c: int| 0 <= c < TOTAL_BLOCKS ==> #[trigger] bitmap_bit(final(bitmap)@, c) == (c == b
                    || bitmap_bit(old(bitmap)@, c))
            },
            None => {
                &&& forall|c: int| 0 <= c < TOTAL_BLOCKS ==> #[trigger] bitmap_bit(old(bitmap)@, c)
                &&& final(bitmap)@ == old(bitmap)@
            },
        },
{
    let mut byte_idx: usize = 0;
    while byte_idx < PAYLOAD_SIZE
        invariant
            bitmap@.len() == PAYLOAD_SIZE,
            byte_idx <= PAYLOAD_SIZE,
            *bitmap == *old(bitmap),
            forall|c: int| 0 <= c < byte_idx * 8 ==> #[trigger] bitmap_bit(bitmap@, c),
        decreases PAYLOAD_SIZE - byte_idx,
    {
        let byte = bitmap[byte_idx];
        if byte != 0xFF {
            let mut bit_idx: usize = 0;
            while bit_idx < 8
                invariant
                    bitmap@.len() == PAYLOAD_SIZE,
                    byte_idx < PAYLOAD_SIZE,
                    *bitmap == *old(bitmap),
                    byte == bitmap@[byte_idx as int],
                    byte != 0xFF,
                    bit_idx <= 8,
                    forall|c: int| 0 <= c < byte_idx * 8 + bit_idx ==> #[trigger] bitmap_bit(bitmap@, c),
                decreases 8 - bit_idx,
            {
                proof {
                    lemma_set_bit(byte, bit_idx as u8, bit_idx as u8);
                    assert((byte_idx * 8 + bit_idx) / 8 == byte_idx);
                    assert((byte_idx * 8 + bit_idx) % 8 == bit_idx);
                }
                if (byte & (1u8 << (bit_idx as u8))) == 0 {
                    let b = byte_idx * 8 + bit_idx;
                    let ghost before = bitmap@;
                    bitmap.set(byte_idx, byte | (1u8 << (bit_idx as u8)));
                    proof {
                        assert forall|c: int| 0 <= c < TOTAL_BLOCKS implies #[trigger] bitmap_bit(bitmap@, c) == (c == b
                            || bitmap_bit(before, c)) by {
                            lemma_set_bit(byte, bit_idx as u8, (c % 8) as u8);
                            if c / 8 != byte_idx {
                                assert(bitmap@[c / 8] == before[c / 8]);
                            } else if c % 8 == bit_idx {
                                assert(c == b);
                            } else {
                                assert(c != b);
                            }
                        }
                    }
                    return Some(b as u32);
                }
                bit_idx = bit_idx + 1;
            }
            proof {
                // A byte that is not full has a clear bit.
                assert(forall|k: u8| k < 8 ==> #[trigger] bit_set(byte, k)) by {
                    assert forall|k: u8| k < 8 implies #[trigger] bit_set(byte, k) by {
                        assert(bitmap_bit(bitmap@, byte_idx * 8 + k as int));
                        assert((byte_idx * 8 + k as int) / 8 == byte_idx);
                        assert((byte_idx * 8 + k as int) % 8 == k);
                    }
                }
                assert(bit_set(byte, 0) && bit_set(byte, 1) && bit_set(byte, 2) && bit_set(byte, 3));
                assert(bit_set(byte, 4) && bit_set(byte, 5) && bit_set(byte, 6) && bit_set(byte, 7));
                assert(byte == 0xFF) by (bit_vector)
                    requires
                        (byte >> 0u8) & 1u8 == 1u8,
                        (byte >> 1u8) & 1u8 == 1u8,
                        (byte >> 2u8) & 1u8 == 1u8,
                        (byte >> 3u8) & 1u8 == 1u8,
                        (byte >> 4u8) & 1u8 == 1u8,
                        (byte >> 5u8) & 1u8 == 1u8,
                        (byte >> 6u8) & 1u8 == 1u8,
                        (byte >> 7u8) & 1u8 == 1u8,
                ;
            }
        } else {
            proof {
                assert forall|c: int| 0 <= c < (byte_idx + 1) * 8 implies #[trigger] bitmap_bit(bitmap@, c) by {
                    if c >= byte_idx * 8 {
                        assert(c / 8 == byte_idx);
                        lemma_set_bit(byte, 0, (c % 8) as u8);
                    }
                }
            }
        }
        byte_idx = byte_idx + 1;
    }
    None
}

/// Marks block `block_id` free, reporting whether it was in use. Block 0
/// and blocks past the store are left alone.
pub fn bitmap_release(bitmap: &mut Vec<u8>, block_id: u32) -> (r: bool)
    requires
        old(bitmap)@.len() == PAYLOAD_SIZE,
    ensures
        final(bitmap)@.len() == PAYLOAD_SIZE,
        r == (block_id != 0 && block_id < TOTAL_BLOCKS && bitmap_bit(old(bitmap)@, block_id as int)),
        forall|c: int| 0 <= c < TOTAL_BLOCKS ==> #[trigger] bitmap_bit(final(bitmap)@, c) == (if r && c == block_id {
            false
        } else {
            bitmap_bit(old(bitmap)@, c)
        }),
{
    if block_id == 0 || block_id >= TOTAL_BLOCKS {
        return false;
    }
    let byte_idx = (block_id / 8) as usize;
    let bit_idx = (block_id % 8) as u8;
    let byte = bitmap[byte_idx];
    proof {
        lemma_set_bit(byte, bit_idx, bit_idx);
    }
    if (byte & (1u8 << bit_idx)) != 0 {
        let ghost before = bitmap@;
        bitmap.set(byte_idx, byte & !(1u8 << bit_idx));
        proof {
            assert forall|c: int| 0 <= c < TOTAL_BLOCKS implies #[trigger] bitmap_bit(bitmap@, c) == (if c == block_id {
                false
            } else {
                bitmap_bit(before, c)
            }) by {
                lemma_set_bit(byte, bit_idx, (c % 8) as u8);
                if c / 8 != byte_idx {
                    assert(bitmap@[c / 8] == before[c / 8]);
                } else if c % 8 == bit_idx {
                    assert(c == block_id);
                } else {
                    assert(c != block_id);
                }
            }
        }
        true
    } else {
        false
    }
}

/// The inode-table block and byte offset of inode `ino`; inode 0 and
/// inodes from 1024 on have none.
pub fn inode_location(ino: u64) -> (r: Option<(u32, usize)>)
    ensures
        r == (if ino == 0 || ino >= 1024 {
            None
        } else {
            Some(((2 + ino / 15) as u32, ((ino % 15) * 256) as usize))
        }),
{
    if ino == 0 || ino >= 1024 {
        return None;
    }
    let block_id = 2 + (ino / 15) as u32;
    let offset = ((ino % 15) * 256) as usize;
    Some((block_id, offset))
}

/// The first free inode slot (kind 0) of inode-table block `block_id`,
/// other than inode 0.
pub fn find_free_inode(block_id: u32, payload: &[u8]) -> (r: Option<u64>)
    requires
        2 <= block_id < 34,
        payload@.len() == PAYLOAD_SIZE,
    ensures
        match r {
            Some(ino) => exists|i: int|
                0 <= i < 15 && ino == (block_id - 2) * 15 + i && ino > 0 && #[trigger] u32_at(payload@, i * 256 + 60)
                    == 0 && forall|j: int|
                    0 <= j < i && (block_id - 2) * 15 + j > 0 ==> #[trigger] u32_at(payload@, j * 256 + 60) != 0,
            None => forall|j: int|
                0 <= j < 15 && (block_id - 2) * 15 + j > 0 ==> #[trigger] u32_at(payload@, j * 256 + 60) != 0,
        },
{
    let mut i: usize = 0;
    while i < 15
        invariant
            2 <= block_id < 34,
            payload@.len() == PAYLOAD_SIZE,
            i <= 15,
            forall|j: int| 0 <= j < i && (block_id - 2) * 15 + j > 0 ==> #[trigger] u32_at(payload@, j * 256 + 60) != 0,
        decreases 15 - i,
    {
        let offset = i * 256;
        let inode = DiskInode::from_bytes(payload, offset);
        proof {
            assert(payload@.subrange(offset as int, offset + 256).subrange(60, 64) =~= payload@.subrange(offset + 60, offset + 64));
        }
        assert(inode.kind == u32_at(payload@, i as int * 256 + 60));
        if inode.kind == 0 {
            let ino = ((block_id - 2) * 15 + i as u32) as u64;
            if ino > 0 {
                assert(u32_at(payload@, i as int * 256 + 60) == 0);
                return Some(ino);
            }
        }
        i = i + 1;
    }
    None
}

} // verus!
