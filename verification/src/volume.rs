//! The volume behind the mounted filesystem: the superblock and its backup,
//! the block bitmap and the inode table, kept in a block store.
use crate::codec::{get_u32, set_bytes, set_u32, splice};
use crate::disk::{
    bitmap_bit, bitmap_release, bitmap_take_first_free, find_free_inode, initial_bitmap, inode_location,
    superblock_payload, Superblock, MAGIC, TOTAL_BLOCKS,
};
use crate::inode::{inode_encoding, inode_stored, lemma_encoding_stored, lemma_inode_stored_unique, u32_at, DiskInode, PAYLOAD_SIZE};
use crate::store::{zero_payload, BlockStore};
use vstd::bytes::*;
use vstd::prelude::*;

verus! {

/// The block that holds the backup of the superblock: the last one.
pub const BACKUP_SUPERBLOCK: u32 = TOTAL_BLOCKS - 1;

/// The block of the block bitmap.
pub const BITMAP_BLOCK: u32 = 1;

/// The free-block count after one block is taken (`taken`) or given back.
/// The count wraps around at the ends of its range rather than stopping the
/// filesystem.
pub open spec fn counter_step(x: u32, taken: bool) -> u32 {
    if taken {
        if x == 0 {
            u32::MAX
        } else {
            (x - 1) as u32
        }
    } else {
        if x == u32::MAX {
            0
        } else {
            (x + 1) as u32
        }
    }
}

/// The inode-table block that holds the record of inode `ino`.
pub open spec fn inode_block(ino: u64) -> u32 {
    let x = (ino / 15) as u32;
    if 2 + x > u32::MAX {
        (2 + x - 0x1_0000_0000) as u32
    } else {
        (2 + x) as u32
    }
}

/// The offset of the record of inode `ino` in its table block.
pub open spec fn inode_offset(ino: u64) -> int {
    (ino % 15) * 256
}

/// The superblock of a freshly formatted volume.
pub open spec fn fresh_superblock() -> Superblock {
    Superblock {
        magic: MAGIC,
        block_size: 4096,
        total_blocks: TOTAL_BLOCKS,
        free_blocks: (TOTAL_BLOCKS - 35) as u32,
        root_ino: 1,
    }
}

proof fn lemma_u32_in_slot(s: Seq<u8>, o: int, k: int)
    requires
        0 <= o,
        0 <= k,
        k + 4 <= 256,
        o + 256 <= s.len(),
    ensures
        u32_at(s.subrange(o, o + 256), k) == u32_at(s, o + k),
{
    assert(s.subrange(o, o + 256).subrange(k, k + 4) =~= s.subrange(o + k, o + k + 4));
}

/// The superblock, the bitmap and the inode table of the mounted
/// filesystem, in a block store whose changed blocks are listed for
/// writing back.
pub struct DiskManager {
    pub store: BlockStore,
}

impl DiskManager {
    /// The payload of block `b`.
    pub open spec fn block(self, b: u32) -> Seq<u8> {
        self.store.payload(b)
    }

    /// The 256 bytes of the record of inode `ino`.
    pub open spec fn inode_bytes(self, ino: u64) -> Seq<u8> {
        self.block(inode_block(ino)).subrange(inode_offset(ino), inode_offset(ino) + 256)
    }

    /// The kind recorded in the slot of inode `ino`: 0 for a free slot.
    pub open spec fn slot_kind(self, ino: u64) -> u32 {
        u32_at(self.inode_bytes(ino), 60)
    }

    /// The inode whose record is in the slot of inode `ino`.
    pub open spec fn inode_of(self, ino: u64) -> DiskInode {
        choose|d: DiskInode| inode_stored(self.inode_bytes(ino), d)
    }

    /// Inode `ino` is in the table and in use.
    pub open spec fn has_inode(self, ino: u64) -> bool {
        0 < ino < 1024 && self.slot_kind(ino) != 0
    }

    /// `ino` is the first inode of the table, other than 0, whose slot is
    /// free.
    pub open spec fn first_free_inode(self, ino: u64) -> bool {
        &&& 0 < ino < 480
        &&& self.slot_kind(ino) == 0
        &&& forall|j: u64| 0 < j < ino ==> #[trigger] self.slot_kind(j) != 0
    }

    /// Every slot of the inode table but that of inode 0 is in use.
    pub open spec fn inodes_full(self) -> bool {
        forall|j: u64| 0 < j < 480 ==> #[trigger] self.slot_kind(j) != 0
    }

    /// `b` is the first block that the bitmap shows free.
    pub open spec fn first_free_block(self, b: u32) -> bool {
        &&& b < TOTAL_BLOCKS
        &&& !bitmap_bit(self.block(1), b as int)
        &&& forall|c: int| 0 <= c < b ==> #[trigger] bitmap_bit(self.block(1), c)
    }

    /// The bitmap shows every block in use.
    pub open spec fn blocks_full(self) -> bool {
        forall|c: int| 0 <= c < TOTAL_BLOCKS ==> #[trigger] bitmap_bit(self.block(1), c)
    }

    /// The free-block count of the superblock.
    pub open spec fn free_count(self) -> u32 {
        u32_at(self.block(0), 12)
    }

    /// `later` differs from `self` in the given blocks at most.
    pub open spec fn same_but(self, later: Self, a: u32, b: u32, c: u32, d: u32) -> bool {
        forall|x: u32| x != a && x != b && x != c && x != d ==> #[trigger] later.block(x) == self.block(x)
    }

    /// The payload of block `b`.
    pub fn read_block(&self, b: u32) -> (r: Vec<u8>)
        ensures
            r@ == self.block(b),
            r@.len() == PAYLOAD_SIZE,
    {
        self.store.read_block(b)
    }

    /// Replaces the payload of block `b`.
    pub fn write_block(&mut self, b: u32, payload: &[u8])
        requires
            payload@.len() == PAYLOAD_SIZE,
        ensures
            final(self).block(b) == payload@,
            forall|x: u32| x != b ==> #[trigger] final(self).block(x) == old(self).block(x),
            old(self).store.changes_listed(final(self).store),
    {
        self.store.write_block(b, payload);
    }

    /// Opens the volume held in `store`. A `fresh` store (an image shorter
    /// than the volume) is formatted. Otherwise a superblock without the
    /// magic number is restored from a backup that has it.
    pub fn new(store: BlockStore, fresh: bool) -> (r: Self)
        ensures
            store.changes_listed(r.store),
            fresh ==> {
                &&& r.block(0) == superblock_payload(fresh_superblock())
                &&& r.block(BACKUP_SUPERBLOCK) == superblock_payload(fresh_superblock())
                &&& r.block(1).len() == PAYLOAD_SIZE
                &&& forall|c: int|
                    0 <= c < TOTAL_BLOCKS ==> #[trigger] bitmap_bit(r.block(1), c) == (c < 34 || c
                        == BACKUP_SUPERBLOCK)
                &&& forall|x: u32| 2 <= x < 34 ==> #[trigger] r.block(x) == zero_payload()
                &&& forall|x: u32| 34 <= x < BACKUP_SUPERBLOCK ==> #[trigger] r.block(x) == store.payload(x)
            },
            !fresh ==> if u32_at(store.payload(0), 0) != MAGIC && u32_at(store.payload(BACKUP_SUPERBLOCK), 0)
                == MAGIC {
                &&& r.block(0) == store.payload(BACKUP_SUPERBLOCK)
                &&& forall|x: u32| x != 0 ==> #[trigger] r.block(x) == store.payload(x)
            } else {
                forall|x: u32| #[trigger] r.block(x) == store.payload(x)
            },
    {
        let mut disk = DiskManager { store };
        if fresh {
            disk.format();
        } else {
            let sb_buf = disk.read_block(0);
            if get_u32(&sb_buf, 0) != MAGIC {
                let backup_buf = disk.read_block(BACKUP_SUPERBLOCK);
                if get_u32(&backup_buf, 0) == MAGIC {
                    disk.write_block(0, &backup_buf);
                }
            }
        }
        disk
    }

    /// Writes the superblock and its backup, the bitmap with the reserved
    /// blocks in use, and an empty inode table.
    fn format(&mut self)
        ensures
            old(self).store.changes_listed(final(self).store),
            final(self).block(0) == superblock_payload(fresh_superblock()),
            final(self).block(BACKUP_SUPERBLOCK) == superblock_payload(fresh_superblock()),
            final(self).block(1).len() == PAYLOAD_SIZE,
            forall|c: int|
                0 <= c < TOTAL_BLOCKS ==> #[trigger] bitmap_bit(final(self).block(1), c) == (c < 34 || c
                    == BACKUP_SUPERBLOCK),
            forall|x: u32| 2 <= x < 34 ==> #[trigger] final(self).block(x) == zero_payload(),
            forall|x: u32| 34 <= x < BACKUP_SUPERBLOCK ==> #[trigger] final(self).block(x) == old(self).block(x),
    {
        let ghost start = self.store;
        let sb = Superblock::format();
        let sb_bytes = sb.to_payload();
        self.write_block(0, &sb_bytes);
        let ghost s1 = self.store;
        self.write_block(BACKUP_SUPERBLOCK, &sb_bytes);
        proof {
            BlockStore::lemma_changes_listed_trans(start, s1, self.store);
        }
        let ghost s2 = self.store;
        let bitmap = initial_bitmap();
        self.write_block(1, &bitmap);
        proof {
            BlockStore::lemma_changes_listed_trans(start, s2, self.store);
        }
        let zero_block: Vec<u8> = vec![0u8; PAYLOAD_SIZE];
        assert(zero_block@ =~= zero_payload());
        let mut i: u32 = 2;
        while i < 34
            invariant
                2 <= i <= 34,
                zero_block@ == zero_payload(),
                start.changes_listed(self.store),
                self.block(0) == superblock_payload(fresh_superblock()),
                self.block(BACKUP_SUPERBLOCK) == superblock_payload(fresh_superblock()),
                self.block(1) == bitmap@,
                bitmap@.len() == PAYLOAD_SIZE,
                forall|c: int|
                    0 <= c < TOTAL_BLOCKS ==> #[trigger] bitmap_bit(bitmap@, c) == (c < 34 || c == BACKUP_SUPERBLOCK),
                forall|x: u32| 2 <= x < i ==> #[trigger] self.block(x) == zero_payload(),
                forall|x: u32| 34 <= x < BACKUP_SUPERBLOCK ==> #[trigger] self.block(x) == start.payload(x),
            decreases 34 - i,
        {
            let ghost before = self.store;
            self.write_block(i, &zero_block);
            proof {
                BlockStore::lemma_changes_listed_trans(start, before, self.store);
            }
            i = i + 1;
        }
    }

    /// The record of inode `ino`, if it is in the table and in use.
    pub fn read_inode(&self, ino: u64) -> (r: Option<DiskInode>)
        ensures
            r == (if self.has_inode(ino) {
                Some(self.inode_of(ino))
            } else {
                None
            }),
            r matches Some(d) ==> inode_stored(self.inode_bytes(ino), d),
    {
        match inode_location(ino) {
            None => None,
            Some((block_id, offset)) => {
                let buf = self.read_block(block_id);
                let inode = DiskInode::from_bytes(&buf, offset);
                proof {
                    lemma_u32_in_slot(buf@, offset as int, 60);
                }
                if inode.kind != 0 {
                    proof {
                        assert(buf@.subrange(offset as int, offset + 256) == self.inode_bytes(ino));
                        let c = self.inode_of(ino);
                        assert(inode_stored(self.inode_bytes(ino), inode));
                        lemma_inode_stored_unique(self.inode_bytes(ino), c, inode);
                    }
                    Some(inode)
                } else {
                    None
                }
            },
        }
    }

    /// Stores the record of `inode` in its table slot. The block of an inode
    /// number far past the table is the wrapped sum, as an optimised build
    /// computes it.
    pub fn write_inode(&mut self, inode: &DiskInode)
        ensures
            final(self).block(inode_block(inode.ino)) == splice(
                old(self).block(inode_block(inode.ino)),
                inode_offset(inode.ino),
                inode_encoding(*inode),
            ),
            forall|x: u32| x != inode_block(inode.ino) ==> #[trigger] final(self).block(x) == old(self).block(x),
            old(self).store.changes_listed(final(self).store),
            inode.ino < 1024 ==> final(self).inode_bytes(inode.ino) == inode_encoding(*inode),
            0 < inode.ino < 1024 && inode.kind != 0 ==> final(self).has_inode(inode.ino) && final(self).inode_of(
                inode.ino,
            ) == *inode,
            inode.ino < 480 ==> forall|x: u64|
                x < 480 && x != inode.ino ==> #[trigger] final(self).inode_bytes(x) == old(self).inode_bytes(x),
    {
        let ino = inode.ino;
        let block_id = 2u32.wrapping_add((#[verifier::truncate] ((ino / 15) as u32)));
        let offset = ((ino % 15) * 256) as usize;
        let mut buf = self.read_block(block_id);
        let bytes = inode.to_bytes();
        set_bytes(&mut buf, offset, bytes.as_slice());
        self.write_block(block_id, &buf);
        proof {
            if ino < 480 {
                assert forall|x: u64| x < 480 && x != ino implies #[trigger] self.inode_bytes(x) == old(self).inode_bytes(
                    x,
                ) by {
                    if inode_block(x) == inode_block(ino) {
                        assert(x / 15 == ino / 15);
                        assert(x % 15 != ino % 15);
                        assert(self.inode_bytes(x) =~= old(self).inode_bytes(x));
                    }
                }
            }
            if ino < 1024 {
                assert(self.inode_bytes(ino) =~= inode_encoding(*inode));
                lemma_encoding_stored(*inode);
                if ino > 0 && inode.kind != 0 {
                    let c = self.inode_of(ino);
                    lemma_inode_stored_unique(self.inode_bytes(ino), c, *inode);
                }
            }
        }
    }

    /// The first inode of the table, other than inode 0, whose slot is free.
    pub fn allocate_inode(&self) -> (r: Option<u64>)
        ensures
            match r {
                Some(ino) => self.first_free_inode(ino),
                None => self.inodes_full(),
            },
    {
        let mut block_id: u32 = 2;
        while block_id < 34
            invariant
                2 <= block_id <= 34,
                forall|j: u64| 0 < j < (block_id - 2) * 15 ==> #[trigger] self.slot_kind(j) != 0,
            decreases 34 - block_id,
        {
            let buf = self.read_block(block_id);
            let found = find_free_inode(block_id, &buf);
            proof {
                assert forall|i: int| 0 <= i < 15 implies #[trigger] u32_at(buf@, i * 256 + 60) == self.slot_kind(
                    ((block_id - 2) * 15 + i) as u64,
                ) by {
                    let j = ((block_id - 2) * 15 + i) as u64;
                    assert(j / 15 == block_id - 2);
                    assert(j % 15 == i);
                    lemma_u32_in_slot(buf@, i * 256, 60);
                }
            }
            match found {
                Some(ino) => {
                    proof {
                        let i = choose|i: int|
                            0 <= i < 15 && ino == (block_id - 2) * 15 + i && ino > 0 && #[trigger] u32_at(buf@, i * 256 + 60)
                                == 0 && forall|j: int|
                                0 <= j < i && (block_id - 2) * 15 + j > 0 ==> #[trigger] u32_at(buf@, j * 256 + 60) != 0;
                        assert(u32_at(buf@, i * 256 + 60) == self.slot_kind(ino));
                        assert forall|j: u64| 0 < j < ino implies #[trigger] self.slot_kind(j) != 0 by {
                            if j >= (block_id - 2) * 15 {
                                let k = j - (block_id - 2) * 15;
                                assert(u32_at(buf@, k * 256 + 60) != 0);
                                assert(u32_at(buf@, k * 256 + 60) == self.slot_kind(((block_id - 2) * 15 + k) as u64));
                            }
                        }
                    }
                    return Some(ino);
                },
                None => {
                    proof {
                        assert forall|j: u64| 0 < j < (block_id + 1 - 2) * 15 implies #[trigger] self.slot_kind(j) != 0 by {
                            if j >= (block_id - 2) * 15 {
                                let k = j - (block_id - 2) * 15;
                                assert(u32_at(buf@, k * 256 + 60) != 0);
                                assert(u32_at(buf@, k * 256 + 60) == self.slot_kind(((block_id - 2) * 15 + k) as u64));
                            }
                        }
                    }
                },
            }
            block_id = block_id + 1;
        }
        None
    }

    /// Clears the table slot of inode `ino`; inode 0 and inodes past the
    /// table are left alone.
    pub fn free_inode(&mut self, ino: u64)
        ensures
            old(self).store.changes_listed(final(self).store),
            0 < ino < 1024 ==> final(self).block(inode_block(ino)) == splice(
                old(self).block(inode_block(ino)),
                inode_offset(ino),
                Seq::new(256, |i: int| 0u8),
            ),
            forall|x: u32|
                !(0 < ino < 1024 && x == inode_block(ino)) ==> #[trigger] final(self).block(x) == old(self).block(x),
            0 < ino < 1024 ==> final(self).inode_bytes(ino) == Seq::new(256, |i: int| 0u8),
            ino < 480 ==> forall|x: u64|
                x < 480 && x != ino ==> #[trigger] final(self).inode_bytes(x) == old(self).inode_bytes(x),
    {
        match inode_location(ino) {
            None => {},
            Some((block_id, offset)) => {
                let mut buf = self.read_block(block_id);
                let zero_inode: Vec<u8> = vec![0u8; 256];
                assert(zero_inode@ =~= Seq::new(256, |i: int| 0u8));
                set_bytes(&mut buf, offset, zero_inode.as_slice());
                self.write_block(block_id, &buf);
                proof {
                    assert(self.inode_bytes(ino) =~= Seq::new(256, |i: int| 0u8));
                    if ino < 480 {
                        assert forall|x: u64| x < 480 && x != ino implies #[trigger] self.inode_bytes(x)
                            == old(self).inode_bytes(x) by {
                            if inode_block(x) == inode_block(ino) {
                                assert(x / 15 == ino / 15);
                                assert(x % 15 != ino % 15);
                                assert(self.inode_bytes(x) =~= old(self).inode_bytes(x));
                            }
                        }
                    }
                }
            },
        }
    }

    /// Moves the free-block count of the superblock one step and stores the
    /// superblock in block 0 and in the backup.
    fn adjust_free_blocks(&mut self, taken: bool)
        ensures
            old(self).store.changes_listed(final(self).store),
            final(self).block(0) == splice(
                old(self).block(0),
                12,
                spec_u32_to_le_bytes(counter_step(old(self).free_count(), taken)),
            ),
            final(self).block(BACKUP_SUPERBLOCK) == final(self).block(0),
            old(self).same_but(*final(self), 0, BACKUP_SUPERBLOCK, 0, 0),
    {
        let ghost start = self.store;
        let mut sb_buf = self.read_block(0);
        let count = get_u32(&sb_buf, 12);
        let next = if taken {
            if count == 0 {
                u32::MAX
            } else {
                count - 1
            }
        } else {
            if count == u32::MAX {
                0
            } else {
                count + 1
            }
        };
        set_u32(&mut sb_buf, 12, next);
        proof {
            lemma_auto_spec_u32_to_from_le_bytes();
        }
        assert(sb_buf@.len() == PAYLOAD_SIZE);
        self.write_block(0, &sb_buf);
        let ghost s1 = self.store;
        self.write_block(BACKUP_SUPERBLOCK, &sb_buf);
        proof {
            BlockStore::lemma_changes_listed_trans(start, s1, self.store);
        }
    }

    /// Takes the first free block of the bitmap, counts it in the
    /// superblock and zeroes it.
    pub fn allocate_block(&mut self) -> (r: Option<u32>)
        ensures
            old(self).store.changes_listed(final(self).store),
            match r {
                Some(b) => {
                    &&& b < TOTAL_BLOCKS
                    &&& !bitmap_bit(old(self).block(1), b as int)
                    &&& forall|c: int| 0 <= c < b ==> #[trigger] bitmap_bit(old(self).block(1), c)
                    &&& final(self).block(b) == zero_payload()
                    &&& b != 1 ==> {
                        &&& final(self).block(1).len() == PAYLOAD_SIZE
                        &&& forall|c: int|
                            0 <= c < TOTAL_BLOCKS ==> #[trigger] bitmap_bit(final(self).block(1), c) == (c == b
                                || bitmap_bit(old(self).block(1), c))
                    }
                    &&& b != 0 ==> final(self).block(0) == splice(
                        old(self).block(0),
                        12,
                        spec_u32_to_le_bytes(counter_step(old(self).free_count(), true)),
                    )
                    &&& b != BACKUP_SUPERBLOCK ==> final(self).block(BACKUP_SUPERBLOCK) == splice(
                        old(self).block(0),
                        12,
                        spec_u32_to_le_bytes(counter_step(old(self).free_count(), true)),
                    )
                    &&& old(self).same_but(*final(self), 0, 1, BACKUP_SUPERBLOCK, b)
                },
                None => {
                    &&& forall|c: int| 0 <= c < TOTAL_BLOCKS ==> #[trigger] bitmap_bit(old(self).block(1), c)
                    &&& forall|x: u32| #[trigger] final(self).block(x) == old(self).block(x)
                },
            },
    {
        let ghost start = self.store;
        let mut bitmap = self.read_block(BITMAP_BLOCK);
        match bitmap_take_first_free(&mut bitmap) {
            None => None,
            Some(block_id) => {
                self.write_block(BITMAP_BLOCK, &bitmap);
                let ghost s1 = self.store;
                self.adjust_free_blocks(true);
                proof {
                    BlockStore::lemma_changes_listed_trans(start, s1, self.store);
                }
                let ghost s2 = self.store;
                let zero_block: Vec<u8> = vec![0u8; PAYLOAD_SIZE];
                assert(zero_block@ =~= zero_payload());
                self.write_block(block_id, &zero_block);
                proof {
                    BlockStore::lemma_changes_listed_trans(start, s2, self.store);
                }
                Some(block_id)
            },
        }
    }

    /// Gives block `block_id` back to the bitmap and counts it in the
    /// superblock, if it was in use; block 0 and blocks past the volume are
    /// left alone.
    pub fn free_block(&mut self, block_id: u32)
        ensures
            old(self).store.changes_listed(final(self).store),
            ({
                let released = block_id != 0 && block_id < TOTAL_BLOCKS && bitmap_bit(
                    old(self).block(1),
                    block_id as int,
                );
                &&& released ==> {
                    &&& final(self).block(1).len() == PAYLOAD_SIZE
                    &&& forall|c: int|
                        0 <= c < TOTAL_BLOCKS ==> #[trigger] bitmap_bit(final(self).block(1), c) == (c != block_id
                            && bitmap_bit(old(self).block(1), c))
                    &&& final(self).block(0) == splice(
                        old(self).block(0),
                        12,
                        spec_u32_to_le_bytes(counter_step(old(self).free_count(), false)),
                    )
                    &&& final(self).block(BACKUP_SUPERBLOCK) == final(self).block(0)
                    &&& old(self).same_but(*final(self), 0, 1, BACKUP_SUPERBLOCK, 0)
                }
                &&& !released ==> forall|x: u32| #[trigger] final(self).block(x) == old(self).block(x)
            }),
    {
        let ghost start = self.store;
        let mut bitmap = self.read_block(BITMAP_BLOCK);
        if bitmap_release(&mut bitmap, block_id) {
            self.write_block(BITMAP_BLOCK, &bitmap);
            let ghost s1 = self.store;
            self.adjust_free_blocks(false);
            proof {
                BlockStore::lemma_changes_listed_trans(start, s1, self.store);
            }
        }
    }
}

} // verus!
