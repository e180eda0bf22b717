//! Facts about the blocks of a file of the mounted filesystem: where each
//! block of the file lies, what it reads as, and what replacing one of them
//! (as a copy-on-write write does) keeps.
use crate::codec::splice;
use crate::disk::{bitmap_bit, TOTAL_BLOCKS};
use crate::inode::{u32_at, DiskInode, PAYLOAD_SIZE};
use crate::mount::LionFS;
use crate::recovery::crc32_of;
use crate::store::zero_payload;
use crate::volume::{DiskManager, BACKUP_SUPERBLOCK};
use vstd::bytes::*;
use vstd::prelude::*;

verus! {

/// Setting checksum `i` of an indirect block sets it and keeps the others.
pub(crate) proof fn lemma_sum_set_get(p: Seq<u8>, i: int, c: u32, j: int)
    requires
        p.len() == PAYLOAD_SIZE,
        0 <= i < 510,
        0 <= j < 510,
    ensures
        u32_at(splice(p, 2040 + 4 * i, spec_u32_to_le_bytes(c)), 2040 + 4 * i) == c,
        j != i ==> u32_at(splice(p, 2040 + 4 * i, spec_u32_to_le_bytes(c)), 2040 + 4 * j) == u32_at(p, 2040 + 4 * j),
{
    lemma_auto_spec_u32_to_from_le_bytes();
    let q = splice(p, 2040 + 4 * i, spec_u32_to_le_bytes(c));
    assert(q.subrange(2040 + 4 * i, 2040 + 4 * i + 4) =~= spec_u32_to_le_bytes(c));
    if j != i {
        assert(q.subrange(2040 + 4 * j, 2040 + 4 * j + 4) =~= p.subrange(2040 + 4 * j, 2040 + 4 * j + 4));
    }
}

/// The block that a write puts at block `idx` of a file, when the write
/// covers positions `offset` to `offset + data.len()` and this block from
/// position `cur` (`bo` into it) on: `data`'s bytes over those it covers,
/// and elsewhere what the block read as (`content`), which `base` is unless
/// the write covers the whole block.
pub(crate) proof fn lemma_block_chunk(
    p: Seq<u8>,
    base: Seq<u8>,
    content: Seq<u8>,
    data: Seq<u8>,
    offset: int,
    cur: int,
    idx: int,
    bo: int,
    n: int,
)
    requires
        base.len() == PAYLOAD_SIZE,
        content.len() == PAYLOAD_SIZE,
        0 <= offset <= cur < offset + data.len(),
        cur == idx * PAYLOAD_SIZE + bo,
        0 <= bo < PAYLOAD_SIZE,
        cur == offset || bo == 0,
        n == if PAYLOAD_SIZE - bo < offset + data.len() - cur {
            PAYLOAD_SIZE - bo
        } else {
            offset + data.len() - cur
        },
        n < PAYLOAD_SIZE ==> base == content,
        p == splice(base, bo, data.subrange(cur - offset, cur - offset + n)),
    ensures
        p.len() == PAYLOAD_SIZE,
        forall|i: int|
            0 <= i < PAYLOAD_SIZE ==> #[trigger] p[i] == if offset <= idx * PAYLOAD_SIZE + i < offset + data.len() {
                data[idx * PAYLOAD_SIZE + i - offset]
            } else {
                content[i]
            },
{
    assert forall|i: int| 0 <= i < PAYLOAD_SIZE implies #[trigger] p[i] == if offset <= idx * PAYLOAD_SIZE + i
        < offset + data.len() {
        data[idx * PAYLOAD_SIZE + i - offset]
    } else {
        content[i]
    } by {
        if i < bo {
            assert(p[i] == base[i]);
        } else if i < bo + n {
            assert(p[i] == data[cur - offset + (i - bo)]);
        } else {
            assert(p[i] == base[i]);
        }
    }
}

impl LionFS {
    /// The bitmap after the blocks of file `d0` (in `before`) that a write
    /// at `offset` has covered up to position `cur` were replaced, the file
    /// record now being `d`: the blocks they were in are free, unless taken
    /// again as one of the blocks they are in now, and those are in use;
    /// every other block is as before.
    #[verifier::opaque]
    pub open spec fn bitmap_replaced(
        self,
        before: LionFS,
        d0: DiskInode,
        d: DiskInode,
        offset: int,
        data: Seq<u8>,
        cur: int,
    ) -> bool {
        forall|c: int|
            0 <= c < TOTAL_BLOCKS ==> #[trigger] bitmap_bit(self.disk.block(1), c) == ((bitmap_bit(
                before.disk.block(1),
                c,
            ) && !(exists|k: int|
                offset < cur && offset / PAYLOAD_SIZE as int <= k && k * PAYLOAD_SIZE < cur && c != 0
                    && #[trigger] before.block_at(d0, k) == c)) || (exists|k: int|
                offset < cur && offset / PAYLOAD_SIZE as int <= k && k * PAYLOAD_SIZE < cur && #[trigger] self.block_at(
                    d,
                    k,
                ) == c))
    }

    /// Byte `p` of file `d`: byte `p % PAYLOAD_SIZE` of what its block
    /// `p / PAYLOAD_SIZE` reads as.
    pub open spec fn file_byte(self, d: DiskInode, p: int) -> u8 {
        self.block_content(d, p / PAYLOAD_SIZE as int)[p % PAYLOAD_SIZE as int]
    }

    /// A read gives the file's own bytes: whatever `read_from` returns from
    /// position `cur` on is, byte for byte, the file's bytes from `cur` on,
    /// all below `end` and below the largest file.
    pub proof fn lemma_read_bytes(self, d: DiskInode, end: int, cur: int)
        requires
            0 <= cur,
            self.read_from(d, end, cur) is Ok,
        ensures
            ({
                let s = self.read_from(d, end, cur)->Ok_0;
                &&& s.len() > 0 ==> cur + s.len() <= end && cur + s.len() <= 522 * PAYLOAD_SIZE
                &&& forall|i: int| 0 <= i < s.len() ==> #[trigger] s[i] == self.file_byte(d, cur + i)
            }),
        decreases end - cur,
    {
        if cur < end {
            let idx = cur / PAYLOAD_SIZE as int;
            let off = cur % PAYLOAD_SIZE as int;
            assert(cur == idx * PAYLOAD_SIZE + off);
            if let Ok((b, c)) = self.mapped(d, idx) {
                if b != 0 && !(c != 0 && crc32_of(self.disk.block(b)) != c) {
                    let n = if PAYLOAD_SIZE - off < end - cur {
                        PAYLOAD_SIZE - off
                    } else {
                        end - cur
                    };
                    self.lemma_read_bytes(d, end, cur + n);
                    let rest = self.read_from(d, end, cur + n)->Ok_0;
                    let s = self.read_from(d, end, cur)->Ok_0;
                    self.disk.store.lemma_payload_len(b);
                    assert(s == self.disk.block(b).subrange(off, off + n) + rest);
                    assert(idx < 522);
                    assert(cur + n <= (idx + 1) * PAYLOAD_SIZE);
                    assert forall|i: int| 0 <= i < s.len() implies #[trigger] s[i] == self.file_byte(d, cur + i) by {
                        if i < n {
                            assert((cur + i) / PAYLOAD_SIZE as int == idx);
                            assert((cur + i) % PAYLOAD_SIZE as int == off + i);
                            assert(self.block_at(d, idx) == b);
                        } else {
                            assert(s[i] == rest[i - n]);
                        }
                    }
                }
            }
        }
    }

    /// A write to inode `ino` up to position `end` reaches every block it
    /// covers: the inode is in the table and records its own number, its
    /// blocks are sound, and the write stays within the direct blocks or
    /// the file has an indirect block.
    pub open spec fn write_reaches(self, ino: u64, end: int) -> bool {
        &&& self.has_inode(ino)
        &&& ino < 480
        &&& self.inode(ino).ino == ino
        &&& self.file_sound(self.inode(ino))
        &&& end <= 12 * PAYLOAD_SIZE || self.inode(ino).indirect_block != 0
    }

    /// The block that holds block `idx` of file `d`: 0 for a hole or past
    /// the largest file.
    pub open spec fn block_at(self, d: DiskInode, idx: int) -> u32 {
        match self.mapped(d, idx) {
            Ok((b, _)) => b,
            Err(_) => 0,
        }
    }

    /// What block `idx` of file `d` reads as: the payload of the block that
    /// holds it, or zeros for a hole.
    pub open spec fn block_content(self, d: DiskInode, idx: int) -> Seq<u8> {
        if self.block_at(d, idx) != 0 {
            self.disk.block(self.block_at(d, idx))
        } else {
            zero_payload()
        }
    }

    /// The blocks of file `d` are sound: the reserved blocks are in use;
    /// its indirect block, if any, and every block that holds a block of
    /// the file are data blocks in use, and no two of them are the same.
    pub open spec fn file_sound(self, d: DiskInode) -> bool {
        let ind = d.indirect_block;
        let bm = self.disk.block(1);
        &&& self.reserved_in_use()
        &&& ind != 0 ==> 34 <= ind < TOTAL_BLOCKS && ind != BACKUP_SUPERBLOCK && bitmap_bit(bm, ind as int)
        &&& forall|k: int|
            0 <= k < 522 && #[trigger] self.block_at(d, k) != 0 ==> {
                let b = self.block_at(d, k);
                &&& 34 <= b < TOTAL_BLOCKS
                &&& b != BACKUP_SUPERBLOCK
                &&& b != ind
                &&& bitmap_bit(bm, b as int)
            }
        &&& forall|k1: int, k2: int|
            0 <= k1 < 522 && 0 <= k2 < 522 && k1 != k2 && #[trigger] self.block_at(d, k1) != 0 ==> self.block_at(d, k1)
                != #[trigger] self.block_at(d, k2)
    }

    /// Block `idx` of file `e` holds what block `idx` of file `d` read as in
    /// `before`, with the bytes of `data` written at file position `offset`
    /// in place of those they cover, and the checksum recorded for it is
    /// that of its payload.
    pub open spec fn block_written(
        self,
        e: DiskInode,
        before: LionFS,
        d: DiskInode,
        offset: int,
        data: Seq<u8>,
        idx: int,
    ) -> bool {
        let b = self.block_at(e, idx);
        let p = self.disk.block(b);
        &&& b != 0
        &&& self.mapped(e, idx) == Ok::<(u32, u32), crate::lionfs::Errno>((b, crc32_of(p)))
        &&& p.len() == PAYLOAD_SIZE
        &&& forall|i: int|
            0 <= i < PAYLOAD_SIZE ==> #[trigger] p[i] == if offset <= idx * PAYLOAD_SIZE + i < offset + data.len() {
                data[idx * PAYLOAD_SIZE + i - offset]
            } else {
                before.block_content(d, idx)[i]
            }
    }

    /// One block of a sound file replaced copy-on-write: a free block `nb`
    /// is allocated (`fs` to `f1`), `buf` is written to it (`f2`), it is
    /// recorded as block `idx` (`f3`, the record going from `d` to `d3`)
    /// with the checksum of `buf` (`f4`, to `d4`), and the old block, if
    /// any, is freed (`self`). The file stays sound, block `idx` is `nb`
    /// holding `buf`, and every other block of the file is where it was
    /// and reads as it did.
    pub(crate) proof fn lemma_replace_block(
        self,
        fs: LionFS,
        f1: LionFS,
        f2: LionFS,
        f3: LionFS,
        f4: LionFS,
        d: DiskInode,
        d3: DiskInode,
        d4: DiskInode,
        idx: int,
        nb: u32,
        buf: Seq<u8>,
    )
        requires
            fs.file_sound(d),
            0 <= idx < 522,
            idx >= 12 ==> d.indirect_block != 0,
            buf.len() == PAYLOAD_SIZE,
            fs.mapped(d, idx) is Ok,
            nb != 0,
            nb < TOTAL_BLOCKS,
            !bitmap_bit(fs.disk.block(1), nb as int),
            nb != 1 ==> forall|c: int|
                0 <= c < TOTAL_BLOCKS ==> #[trigger] bitmap_bit(f1.disk.block(1), c) == (c == nb || bitmap_bit(
                    fs.disk.block(1),
                    c,
                )),
            fs.disk.same_but(f1.disk, 0, 1, BACKUP_SUPERBLOCK, nb),
            f2.disk.block(nb) == buf,
            forall|x: u32| x != nb ==> #[trigger] f2.disk.block(x) == f1.disk.block(x),
            idx < 12 ==> {
                &&& d3.direct_blocks@ == d.direct_blocks@.update(idx, nb)
                &&& d3 == (DiskInode { direct_blocks: d3.direct_blocks, ..d })
                &&& f3 == f2
            },
            idx >= 12 ==> {
                &&& d3 == d
                &&& f3.disk.block(d.indirect_block) == splice(
                    f2.disk.block(d.indirect_block),
                    4 * (idx - 12),
                    spec_u32_to_le_bytes(nb),
                )
                &&& forall|x: u32| x != d.indirect_block ==> #[trigger] f3.disk.block(x) == f2.disk.block(x)
            },
            idx < 12 ==> {
                &&& d4.direct_checksums@ == d3.direct_checksums@.update(idx, crc32_of(buf))
                &&& d4 == (DiskInode { direct_checksums: d4.direct_checksums, ..d3 })
                &&& f4 == f3
            },
            idx >= 12 ==> {
                &&& d4 == d3
                &&& f4.disk.block(d.indirect_block) == splice(
                    f3.disk.block(d.indirect_block),
                    2040 + 4 * (idx - 12),
                    spec_u32_to_le_bytes(crc32_of(buf)),
                )
                &&& forall|x: u32| x != d.indirect_block ==> #[trigger] f4.disk.block(x) == f3.disk.block(x)
            },
            fs.block_at(d, idx) == 0 ==> self == f4,
            fs.block_at(d, idx) != 0 ==> ({
                let ob = fs.block_at(d, idx);
                let released = ob < TOTAL_BLOCKS && bitmap_bit(f4.disk.block(1), ob as int);
                &&& released ==> {
                    &&& forall|c: int|
                        0 <= c < TOTAL_BLOCKS ==> #[trigger] bitmap_bit(self.disk.block(1), c) == (c != ob
                            && bitmap_bit(f4.disk.block(1), c))
                    &&& f4.disk.same_but(self.disk, 0, 1, BACKUP_SUPERBLOCK, 0)
                }
                &&& !released ==> forall|x: u32| #[trigger] self.disk.block(x) == f4.disk.block(x)
            }),
        ensures
            self.file_sound(d4),
            self.mapped(d4, idx) == Ok::<(u32, u32), crate::lionfs::Errno>((nb, crc32_of(buf))),
            self.block_at(d4, idx) == nb,
            self.disk.block(nb) == buf,
            forall|k: int|
                0 <= k < 522 && k != idx ==> #[trigger] self.mapped(d4, k) == fs.mapped(d, k) && self.block_content(
                    d4,
                    k,
                ) == fs.block_content(d, k),
            forall|c: int|
                0 <= c < TOTAL_BLOCKS ==> #[trigger] bitmap_bit(self.disk.block(1), c) == ((bitmap_bit(
                    fs.disk.block(1),
                    c,
                ) || c == nb) && !(fs.block_at(d, idx) != 0 && c == fs.block_at(d, idx))),
    {
        let ind = d.indirect_block;
        let ob = fs.block_at(d, idx);
        let bm0 = fs.disk.block(1);
        assert(nb >= 34 && nb != BACKUP_SUPERBLOCK) by {
            if nb < 34 {
                assert(bitmap_bit(bm0, nb as int));
            }
        }
        assert(ind != 0 ==> nb != ind);
        assert forall|k: int| 0 <= k < 522 && #[trigger] fs.block_at(d, k) != 0 implies fs.block_at(d, k) != nb by {
            assert(bitmap_bit(bm0, fs.block_at(d, k) as int));
        }
        // the bitmap after each step
        assert(f4.disk.block(1) == f1.disk.block(1)) by {
            assert(f2.disk.block(1) == f1.disk.block(1));
            assert(f3.disk.block(1) == f2.disk.block(1));
        }
        // the indirect block, as far as other blocks of the file go
        if ind != 0 {
            assert(f2.disk.block(ind) == fs.disk.block(ind));
            fs.disk.store.lemma_payload_len(ind);
        }
        // where each block of the file lies after the replacement
        assert forall|k: int| 0 <= k < 522 && k != idx implies #[trigger] f4.mapped(d4, k) == fs.mapped(d, k) by {
            if k >= 12 && ind != 0 {
                if idx >= 12 {
                    let p = fs.disk.block(ind);
                    crate::lionfs::lemma_indirect_set_get(p, idx - 12, nb, k - 12);
                    let q = f3.disk.block(ind);
                    f3.disk.store.lemma_payload_len(ind);
                    assert(q.len() == PAYLOAD_SIZE);
                    lemma_sum_set_get(q, idx - 12, crc32_of(buf), k - 12);
                    crate::mount_dir::lemma_sum_set_keeps_ptr(q, idx - 12, crc32_of(buf), k - 12);
                } else {
                    assert(f4.disk.block(ind) == fs.disk.block(ind));
                }
            }
        }
        if idx >= 12 {
            let p = fs.disk.block(ind);
            crate::lionfs::lemma_indirect_set_get(p, idx - 12, nb, idx - 12);
            let q = f3.disk.block(ind);
            f3.disk.store.lemma_payload_len(ind);
            lemma_sum_set_get(q, idx - 12, crc32_of(buf), idx - 12);
            crate::mount_dir::lemma_sum_set_keeps_ptr(q, idx - 12, crc32_of(buf), idx - 12);
        }
        assert(f4.mapped(d4, idx) == Ok::<(u32, u32), crate::lionfs::Errno>((nb, crc32_of(buf))));
        // the freed block is no block of the file any more
        if ob != 0 {
            assert(bitmap_bit(bm0, ob as int));
            assert(bitmap_bit(f4.disk.block(1), ob as int));
        }
        assert(self.disk.block(nb) == buf) by {
            assert(f4.disk.block(nb) == f2.disk.block(nb));
        }
        if ind != 0 {
            assert(self.disk.block(ind) == f4.disk.block(ind));
        }
        assert forall|k: int| 0 <= k < 522 && k != idx implies #[trigger] self.mapped(d4, k) == fs.mapped(d, k)
            && self.block_content(d4, k) == fs.block_content(d, k) by {
            assert(f4.mapped(d4, k) == fs.mapped(d, k));
            let b = fs.block_at(d, k);
            if b != 0 {
                assert(b != ob);
                assert(b != nb);
                assert(f4.disk.block(b) == fs.disk.block(b));
                assert(self.disk.block(b) == f4.disk.block(b));
            }
        }
        assert(self.mapped(d4, idx) == f4.mapped(d4, idx));
        assert forall|c: int| 0 <= c < TOTAL_BLOCKS implies #[trigger] bitmap_bit(self.disk.block(1), c) == ((bitmap_bit(
            bm0,
            c,
        ) || c == nb) && !(ob != 0 && c == ob)) by {
            assert(bitmap_bit(f1.disk.block(1), c) == (c == nb || bitmap_bit(bm0, c)));
        }
        // soundness of the file afterwards
        assert forall|c: int| (0 <= c < 34 || c == BACKUP_SUPERBLOCK) implies #[trigger] bitmap_bit(self.disk.block(1), c) by {
            assert(bitmap_bit(bm0, c));
            assert(bitmap_bit(f1.disk.block(1), c));
        }
        assert forall|k: int| 0 <= k < 522 && #[trigger] self.block_at(d4, k) != 0 implies {
            let b = self.block_at(d4, k);
            &&& 34 <= b < TOTAL_BLOCKS
            &&& b != BACKUP_SUPERBLOCK
            &&& b != d4.indirect_block
            &&& bitmap_bit(self.disk.block(1), b as int)
        } by {
            if k != idx {
                let b = fs.block_at(d, k);
                assert(self.block_at(d4, k) == b);
                assert(bitmap_bit(bm0, b as int));
                assert(bitmap_bit(f1.disk.block(1), b as int));
            } else {
                assert(bitmap_bit(f1.disk.block(1), nb as int));
            }
        }
        if ind != 0 {
            assert(bitmap_bit(bm0, ind as int));
            assert(bitmap_bit(f1.disk.block(1), ind as int));
        }
        assert forall|k1: int, k2: int|
            0 <= k1 < 522 && 0 <= k2 < 522 && k1 != k2 && #[trigger] self.block_at(d4, k1) != 0 implies self.block_at(
            d4,
            k1,
        ) != #[trigger] self.block_at(d4, k2) by {
            if k1 != idx && k2 != idx {
                assert(fs.block_at(d, k1) != fs.block_at(d, k2));
            } else if k1 == idx {
                assert(self.block_at(d4, k2) == fs.block_at(d, k2));
            } else {
                assert(self.block_at(d4, k1) == fs.block_at(d, k1));
            }
        }
    }
    /// Where each block of a file lies and what it reads as depend only on
    /// the file's block records and on the data blocks: two states that
    /// agree on every data block agree on them.
    pub(crate) proof fn lemma_file_frame(self, other: LionFS, d: DiskInode, e: DiskInode)
        requires
            other.file_sound(d),
            forall|x: u32| x >= 34 ==> #[trigger] self.disk.block(x) == other.disk.block(x),
            e.direct_blocks == d.direct_blocks,
            e.direct_checksums == d.direct_checksums,
            e.indirect_block == d.indirect_block,
            self.disk.block(1) == other.disk.block(1),
        ensures
            self.file_sound(e),
            forall|k: int|
                0 <= k < 522 ==> #[trigger] self.mapped(e, k) == other.mapped(d, k) && self.block_content(e, k)
                    == other.block_content(d, k),
            forall|k: int| #[trigger] self.block_at(e, k) == other.block_at(d, k),
    {
        assert forall|k: int| 0 <= k < 522 implies #[trigger] self.mapped(e, k) == other.mapped(d, k)
            && self.block_content(e, k) == other.block_content(d, k) by {
            if d.indirect_block != 0 {
                assert(self.disk.block(d.indirect_block) == other.disk.block(d.indirect_block));
            }
            assert(self.mapped(e, k) == other.mapped(d, k));
            let b = other.block_at(d, k);
            if b != 0 {
                assert(self.disk.block(b) == other.disk.block(b));
            }
        }
        assert(self.reserved_in_use()) by {
            assert(self.disk.block(1) == other.disk.block(1));
        }
        assert forall|k: int| #[trigger] self.block_at(e, k) == other.block_at(d, k) by {
            if d.indirect_block != 0 {
                assert(self.disk.block(d.indirect_block) == other.disk.block(d.indirect_block));
            }
            assert(self.mapped(e, k) == other.mapped(d, k));
        }
    }

    /// One step of a write: block `idx` of file `d` (the record `d0` in
    /// `start`, before the write) is replaced as `lemma_replace_block`
    /// says, by `buf`: the block read as before (`base`, unless the write
    /// covers the whole block) with the next `n` bytes of `data` from file
    /// position `cur` on. What holds of the blocks written so far and of
    /// the others at `cur` holds at `cur + n`.
    pub(crate) proof fn lemma_write_step(
        self,
        start: LionFS,
        fs: LionFS,
        f1: LionFS,
        f2: LionFS,
        f3: LionFS,
        f4: LionFS,
        d0: DiskInode,
        d: DiskInode,
        d3: DiskInode,
        d4: DiskInode,
        offset: int,
        data: Seq<u8>,
        cur: int,
        idx: int,
        nb: u32,
        buf: Seq<u8>,
        bo: int,
        n: int,
        base: Seq<u8>,
    )
        requires
            fs.file_sound(d),
            d.indirect_block == d0.indirect_block,
            offset + data.len() > 12 * PAYLOAD_SIZE ==> d0.indirect_block != 0,
            0 <= offset <= cur < offset + data.len(),
            cur == offset || cur % PAYLOAD_SIZE as int == 0,
            idx == cur / PAYLOAD_SIZE as int,
            bo == cur % PAYLOAD_SIZE as int,
            idx < 522,
            n == if PAYLOAD_SIZE - bo < offset + data.len() - cur {
                PAYLOAD_SIZE - bo
            } else {
                offset + data.len() - cur
            },
            forall|k: int|
                0 <= k < 522 && !(offset < cur && offset / PAYLOAD_SIZE as int <= k && k * PAYLOAD_SIZE < cur)
                    ==> #[trigger] fs.mapped(d, k) == start.mapped(d0, k) && fs.block_content(d, k)
                    == start.block_content(d0, k),
            forall|k: int|
                offset < cur && offset / PAYLOAD_SIZE as int <= k && k * PAYLOAD_SIZE < cur ==> #[trigger] fs.block_written(
                    d,
                    start,
                    d0,
                    offset,
                    data,
                    k,
                ),
            fs.bitmap_replaced(start, d0, d, offset, data, cur),
            base == if n < PAYLOAD_SIZE && fs.block_at(d, idx) != 0 {
                fs.disk.block(fs.block_at(d, idx))
            } else {
                zero_payload()
            },
            buf == splice(base, bo, data.subrange(cur - offset, cur - offset + n)),
            fs.mapped(d, idx) is Ok,
            nb != 0,
            nb < TOTAL_BLOCKS,
            !bitmap_bit(fs.disk.block(1), nb as int),
            nb != 1 ==> forall|c: int|
                0 <= c < TOTAL_BLOCKS ==> #[trigger] bitmap_bit(f1.disk.block(1), c) == (c == nb || bitmap_bit(
                    fs.disk.block(1),
                    c,
                )),
            fs.disk.same_but(f1.disk, 0, 1, BACKUP_SUPERBLOCK, nb),
            f2.disk.block(nb) == buf,
            forall|x: u32| x != nb ==> #[trigger] f2.disk.block(x) == f1.disk.block(x),
            idx < 12 ==> {
                &&& d3.direct_blocks@ == d.direct_blocks@.update(idx, nb)
                &&& d3 == (DiskInode { direct_blocks: d3.direct_blocks, ..d })
                &&& f3 == f2
            },
            idx >= 12 ==> {
                &&& d3 == d
                &&& d.indirect_block != 0 ==> f3.disk.block(d.indirect_block) == splice(
                    f2.disk.block(d.indirect_block),
                    4 * (idx - 12),
                    spec_u32_to_le_bytes(nb),
                )
                &&& d.indirect_block != 0 ==> forall|x: u32|
                    x != d.indirect_block ==> #[trigger] f3.disk.block(x) == f2.disk.block(x)
            },
            idx < 12 ==> {
                &&& d4.direct_checksums@ == d3.direct_checksums@.update(idx, crc32_of(buf))
                &&& d4 == (DiskInode { direct_checksums: d4.direct_checksums, ..d3 })
                &&& f4 == f3
            },
            idx >= 12 ==> {
                &&& d4 == d3
                &&& d.indirect_block != 0 ==> f4.disk.block(d.indirect_block) == splice(
                    f3.disk.block(d.indirect_block),
                    2040 + 4 * (idx - 12),
                    spec_u32_to_le_bytes(crc32_of(buf)),
                )
                &&& d.indirect_block != 0 ==> forall|x: u32|
                    x != d.indirect_block ==> #[trigger] f4.disk.block(x) == f3.disk.block(x)
            },
            fs.block_at(d, idx) == 0 ==> self == f4,
            fs.block_at(d, idx) != 0 ==> ({
                let ob = fs.block_at(d, idx);
                let released = ob < TOTAL_BLOCKS && bitmap_bit(f4.disk.block(1), ob as int);
                &&& released ==> {
                    &&& forall|c: int|
                        0 <= c < TOTAL_BLOCKS ==> #[trigger] bitmap_bit(self.disk.block(1), c) == (c != ob
                            && bitmap_bit(f4.disk.block(1), c))
                    &&& f4.disk.same_but(self.disk, 0, 1, BACKUP_SUPERBLOCK, 0)
                }
                &&& !released ==> forall|x: u32| #[trigger] self.disk.block(x) == f4.disk.block(x)
            }),
        ensures
            self.file_sound(d4),
            cur + n == offset + data.len() || (cur + n) % PAYLOAD_SIZE as int == 0,
            forall|k: int|
                0 <= k < 522 && !(offset < cur + n && offset / PAYLOAD_SIZE as int <= k && k * PAYLOAD_SIZE < cur + n)
                    ==> #[trigger] self.mapped(d4, k) == start.mapped(d0, k) && self.block_content(d4, k)
                    == start.block_content(d0, k),
            forall|k: int|
                offset < cur + n && offset / PAYLOAD_SIZE as int <= k && k * PAYLOAD_SIZE < cur + n
                    ==> #[trigger] self.block_written(d4, start, d0, offset, data, k),
            self.bitmap_replaced(start, d0, d4, offset, data, cur + n),
            cur + n <= 522 * PAYLOAD_SIZE,
    {
        assert(cur == idx * PAYLOAD_SIZE + bo);
        assert(idx >= 12 ==> d.indirect_block != 0) by {
            if idx >= 12 {
                assert(cur >= 12 * PAYLOAD_SIZE);
            }
        }
        assert(offset / PAYLOAD_SIZE as int <= idx);
        let content = start.block_content(d0, idx);
        assert(fs.block_content(d, idx) == content);
        assert(content.len() == PAYLOAD_SIZE) by {
            if start.block_at(d0, idx) != 0 {
                start.disk.store.lemma_payload_len(start.block_at(d0, idx));
            }
        }
        assert(base.len() == PAYLOAD_SIZE) by {
            if n < PAYLOAD_SIZE && fs.block_at(d, idx) != 0 {
                fs.disk.store.lemma_payload_len(fs.block_at(d, idx));
            }
        }
        lemma_block_chunk(buf, base, content, data, offset, cur, idx, bo, n);
        self.lemma_replace_block(fs, f1, f2, f3, f4, d, d3, d4, idx, nb, buf);
        assert(self.block_written(d4, start, d0, offset, data, idx));
        assert forall|k: int|
            offset < cur + n && offset / PAYLOAD_SIZE as int <= k && k * PAYLOAD_SIZE < cur + n
                implies #[trigger] self.block_written(d4, start, d0, offset, data, k) by {
            if k != idx {
                assert(k < idx);
                assert(k * PAYLOAD_SIZE < cur);
                assert(fs.block_written(d, start, d0, offset, data, k));
                assert(self.mapped(d4, k) == fs.mapped(d, k));
                assert(self.block_content(d4, k) == fs.block_content(d, k));
            }
        }
        assert forall|k: int|
            0 <= k < 522 && !(offset < cur + n && offset / PAYLOAD_SIZE as int <= k && k * PAYLOAD_SIZE < cur + n)
                implies #[trigger] self.mapped(d4, k) == start.mapped(d0, k) && self.block_content(d4, k)
                == start.block_content(d0, k) by {
            assert(k != idx);
            assert(fs.mapped(d, k) == start.mapped(d0, k));
        }
        // the bitmap: block `idx` joins the replaced ones
        reveal(LionFS::bitmap_replaced);
        let ob = fs.block_at(d, idx);
        assert(start.block_at(d0, idx) == ob);
        let bm = start.disk.block(1);
        assert forall|c: int| 0 <= c < TOTAL_BLOCKS implies #[trigger] bitmap_bit(self.disk.block(1), c) == ((
        bitmap_bit(bm, c) && !(exists|k: int|
            offset < cur + n && offset / PAYLOAD_SIZE as int <= k && k * PAYLOAD_SIZE < cur + n && c != 0
                && #[trigger] start.block_at(d0, k) == c)) || (exists|k: int|
            offset < cur + n && offset / PAYLOAD_SIZE as int <= k && k * PAYLOAD_SIZE < cur + n
                && #[trigger] self.block_at(d4, k) == c)) by {
            let old_before = exists|k: int|
                offset < cur && offset / PAYLOAD_SIZE as int <= k && k * PAYLOAD_SIZE < cur && c != 0
                    && #[trigger] start.block_at(d0, k) == c;
            let new_before = exists|k: int|
                offset < cur && offset / PAYLOAD_SIZE as int <= k && k * PAYLOAD_SIZE < cur && #[trigger] fs.block_at(
                    d,
                    k,
                ) == c;
            let old_after = exists|k: int|
                offset < cur + n && offset / PAYLOAD_SIZE as int <= k && k * PAYLOAD_SIZE < cur + n && c != 0
                    && #[trigger] start.block_at(d0, k) == c;
            let new_after = exists|k: int|
                offset < cur + n && offset / PAYLOAD_SIZE as int <= k && k * PAYLOAD_SIZE < cur + n
                    && #[trigger] self.block_at(d4, k) == c;
            assert(bitmap_bit(fs.disk.block(1), c) == ((bitmap_bit(bm, c) && !old_before) || new_before));
            assert(old_after == (old_before || (c != 0 && c == ob))) by {
                if old_after {
                    let k = choose|k: int|
                        offset < cur + n && offset / PAYLOAD_SIZE as int <= k && k * PAYLOAD_SIZE < cur + n && c != 0
                            && #[trigger] start.block_at(d0, k) == c;
                    if k != idx {
                        assert(k < idx);
                        assert(k * PAYLOAD_SIZE < cur);
                    }
                }
                if old_before {
                    let k = choose|k: int|
                        offset < cur && offset / PAYLOAD_SIZE as int <= k && k * PAYLOAD_SIZE < cur && c != 0
                            && #[trigger] start.block_at(d0, k) == c;
                    assert(k * PAYLOAD_SIZE < cur + n);
                }
                if c != 0 && c == ob {
                    assert(start.block_at(d0, idx) == c);
                }
            }
            assert(new_after == (new_before || c == nb)) by {
                if new_after {
                    let k = choose|k: int|
                        offset < cur + n && offset / PAYLOAD_SIZE as int <= k && k * PAYLOAD_SIZE < cur + n
                            && #[trigger] self.block_at(d4, k) == c;
                    if k != idx {
                        assert(k < idx);
                        assert(k * PAYLOAD_SIZE < cur);
                        assert(self.block_at(d4, k) == fs.block_at(d, k));
                    }
                }
                if new_before {
                    let k = choose|k: int|
                        offset < cur && offset / PAYLOAD_SIZE as int <= k && k * PAYLOAD_SIZE < cur && #[trigger] fs.block_at(
                            d,
                            k,
                        ) == c;
                    assert(k != idx);
                    assert(self.block_at(d4, k) == fs.block_at(d, k));
                    assert(k * PAYLOAD_SIZE < cur + n);
                }
                if c == nb {
                    assert(self.block_at(d4, idx) == nb);
                }
            }
            // the old block of `idx` was in no other place of the file
            if ob != 0 && c == ob {
                assert(!new_before) by {
                    if new_before {
                        let k = choose|k: int|
                            offset < cur && offset / PAYLOAD_SIZE as int <= k && k * PAYLOAD_SIZE < cur
                                && #[trigger] fs.block_at(d, k) == c;
                        assert(k != idx);
                    }
                }
            }
        }
    }
    /// Byte by byte: where every block that a write covers holds its part
    /// of `data` over what it read as, and every other block reads as
    /// before, each byte of the file is `data`'s within the write and what
    /// it was elsewhere.
    pub(crate) proof fn lemma_written_bytes(
        self,
        before: LionFS,
        d: DiskInode,
        e: DiskInode,
        offset: int,
        data: Seq<u8>,
    )
        requires
            0 <= offset,
            forall|k: int|
                data.len() > 0 && offset / PAYLOAD_SIZE as int <= k && k * PAYLOAD_SIZE < offset + data.len()
                    ==> #[trigger] self.block_written(e, before, d, offset, data, k),
            forall|k: int|
                0 <= k < 522 && !(data.len() > 0 && offset / PAYLOAD_SIZE as int <= k && k * PAYLOAD_SIZE < offset
                    + data.len()) ==> #[trigger] self.mapped(e, k) == before.mapped(d, k) && self.block_content(e, k)
                    == before.block_content(d, k),
        ensures
            forall|p: int|
                0 <= p < 522 * PAYLOAD_SIZE ==> #[trigger] self.file_byte(e, p) == if offset <= p < offset + data.len() {
                    data[p - offset]
                } else {
                    before.file_byte(d, p)
                },
    {
        assert forall|p: int| 0 <= p < 522 * PAYLOAD_SIZE implies #[trigger] self.file_byte(e, p) == if offset <= p
            < offset + data.len() {
            data[p - offset]
        } else {
            before.file_byte(d, p)
        } by {
            let k = p / PAYLOAD_SIZE as int;
            let i = p % PAYLOAD_SIZE as int;
            assert(p == k * PAYLOAD_SIZE + i);
            assert(0 <= k < 522);
            if data.len() > 0 && offset / PAYLOAD_SIZE as int <= k && k * PAYLOAD_SIZE < offset + data.len() {
                assert(self.block_written(e, before, d, offset, data, k));
                let b = self.block_at(e, k);
                assert(self.block_content(e, k) == self.disk.block(b));
                assert(self.disk.block(b)[i] == if offset <= k * PAYLOAD_SIZE + i < offset + data.len() {
                    data[k * PAYLOAD_SIZE + i - offset]
                } else {
                    before.block_content(d, k)[i]
                });
            } else {
                assert(self.block_content(e, k) == before.block_content(d, k));
                if offset <= p < offset + data.len() {
                    assert(offset / PAYLOAD_SIZE as int <= k);
                }
            }
        }
    }
    /// A file whose blocks that a write covers each hold their part of
    /// `data` reads back `data` from any block boundary within it (or from
    /// `offset`) on.
    pub(crate) proof fn lemma_read_back(
        self,
        e: DiskInode,
        before: LionFS,
        d: DiskInode,
        offset: int,
        data: Seq<u8>,
        cur: int,
    )
        requires
            0 <= offset <= cur <= offset + data.len(),
            cur == offset || cur == offset + data.len() || cur % PAYLOAD_SIZE as int == 0,
            forall|k: int|
                data.len() > 0 && offset / PAYLOAD_SIZE as int <= k && k * PAYLOAD_SIZE < offset + data.len()
                    ==> #[trigger] self.block_written(e, before, d, offset, data, k),
        ensures
            self.read_from(e, offset + data.len(), cur) == Ok::<Seq<u8>, crate::lionfs::Errno>(
                data.subrange(cur - offset, data.len() as int),
            ),
        decreases offset + data.len() - cur,
    {
        let end = offset + data.len();
        if cur < end {
            let idx = cur / PAYLOAD_SIZE as int;
            let off = cur % PAYLOAD_SIZE as int;
            assert(idx * PAYLOAD_SIZE + off == cur);
            assert(offset / PAYLOAD_SIZE as int <= idx);
            assert(self.block_written(e, before, d, offset, data, idx));
            let b = self.block_at(e, idx);
            let p = self.disk.block(b);
            let n = if PAYLOAD_SIZE - off < end - cur {
                PAYLOAD_SIZE - off
            } else {
                end - cur
            };
            let next = cur + n;
            assert(next == end || next == (idx + 1) * PAYLOAD_SIZE);
            self.lemma_read_back(e, before, d, offset, data, next);
            assert(p.subrange(off, off + n) =~= data.subrange(cur - offset, next - offset)) by {
                assert forall|i: int| 0 <= i < n implies #[trigger] p.subrange(off, off + n)[i] == data.subrange(
                    cur - offset,
                    next - offset,
                )[i] by {
                    assert(p[off + i] == data[idx * PAYLOAD_SIZE + off + i - offset]);
                }
            }
            assert(data.subrange(cur - offset, next - offset) + data.subrange(next - offset, data.len() as int)
                =~= data.subrange(cur - offset, data.len() as int));
        } else {
            assert(data.subrange(cur - offset, data.len() as int) =~= Seq::<u8>::empty());
        }
    }
}

} // verus!
