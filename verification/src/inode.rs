//! Inodes: the fixed-size inode of the block store, and the trees and
//! managers of inode records.
use crate::clock::unix_now_secs;
use crate::codec::{get_u16, get_u32, get_u64, put_u16, put_u32, put_u64, put_zeros};
use vstd::bytes::*;
use vstd::prelude::*;

pub mod manager;
pub mod tree;

verus! {

broadcast use vstd::array::group_array_axioms;

/// Bytes of a block available to the filesystem.
pub const PAYLOAD_SIZE: usize = 4080;

/// Blocks addressed from the inode itself; later ones go through the
/// indirect block.
pub const DIRECT_BLOCKS: usize = 12;

pub const KIND_FILE: u32 = 1;

pub const KIND_DIR: u32 = 2;

pub const KIND_SYMLINK: u32 = 3;

/// Bytes of an encoded inode.
pub const DISK_INODE_SIZE: usize = 256;

pub open spec fn u64_at(b: Seq<u8>, off: int) -> u64 {
    spec_u64_from_le_bytes(b.subrange(off, off + 8))
}

pub open spec fn u32_at(b: Seq<u8>, off: int) -> u32 {
    spec_u32_from_le_bytes(b.subrange(off, off + 4))
}

pub open spec fn u16_at(b: Seq<u8>, off: int) -> u16 {
    spec_u16_from_le_bytes(b.subrange(off, off + 2))
}

/// An inode of the block store: attributes, twelve direct blocks with their
/// checksums, and one indirect block.
#[derive(Copy, Clone, Debug, PartialEq, Eq)]
pub struct DiskInode {
    pub ino: u64,
    pub parent: u64,
    pub size: u64,
    pub ctime: u64,
    pub mtime: u64,
    pub atime: u64,
    pub uid: u32,
    pub gid: u32,
    pub nlink: u32,
    /// 0 for a free slot, else one of the `KIND_` values.
    pub kind: u32,
    pub mode: u16,
    pub padding1: u16,
    pub direct_blocks: [u32; 12],
    pub direct_checksums: [u32; 12],
    pub indirect_block: u32,
    pub flags: u32,
}

/// The encoding of `s` as consecutive little-endian words.
pub open spec fn u32s_bytes(s: Seq<u32>) -> Seq<u8>
    decreases s.len(),
{
    if s.len() == 0 {
        Seq::empty()
    } else {
        u32s_bytes(s.drop_last()) + spec_u32_to_le_bytes(s.last())
    }
}

pub proof fn lemma_u32s_bytes(s: Seq<u32>)
    ensures
        u32s_bytes(s).len() == 4 * s.len(),
        forall|i: int| 0 <= i < s.len() ==> #[trigger] u32_at(u32s_bytes(s), 4 * i) == s[i],
    decreases s.len(),
{
    lemma_auto_spec_u32_to_from_le_bytes();
    if s.len() > 0 {
        let p = s.drop_last();
        lemma_u32s_bytes(p);
        let b = u32s_bytes(s);
        assert forall|i: int| 0 <= i < s.len() implies #[trigger] u32_at(u32s_bytes(s), 4 * i) == s[i] by {
            if i < p.len() {
                assert(b.subrange(4 * i, 4 * i + 4) =~= u32s_bytes(p).subrange(4 * i, 4 * i + 4));
                assert(u32_at(u32s_bytes(p), 4 * i) == p[i]);
            } else {
                assert(b.subrange(4 * i, 4 * i + 4) =~= spec_u32_to_le_bytes(s.last()));
            }
        }
    }
}

/// Appends the words of `a` in order.
fn put_u32s(out: &mut Vec<u8>, a: &[u32; 12])
    ensures
        final(out)@ == old(out)@ + u32s_bytes(a@),
{
    let ghost start = out@;
    let mut i: usize = 0;
    while i < 12
        invariant
            i <= 12,
            out@ == start + u32s_bytes(a@.subrange(0, i as int)),
        decreases 12 - i,
    {
        proof {
            let t = a@.subrange(0, i + 1);
            assert(t.drop_last() =~= a@.subrange(0, i as int));
            assert(t.last() == a@[i as int]);
        }
        put_u32(out, a[i]);
        i = i + 1;
        proof {
            assert(out@ =~= start + u32s_bytes(a@.subrange(0, i as int)));
        }
    }
    assert(a@.subrange(0, 12) =~= a@);
}

/// Reads twelve little-endian words from `off`.
fn get_u32s(bytes: &[u8], off: usize) -> (r: [u32; 12])
    requires
        off + 48 <= bytes@.len(),
    ensures
        forall|i: int| 0 <= i < 12 ==> #[trigger] r[i] == u32_at(bytes@, off + 4 * i),
{
    let len = bytes.len();
    let mut a = [0u32; 12];
    let mut i: usize = 0;
    while i < 12
        invariant
            len == bytes@.len(),
            off + 48 <= bytes@.len(),
            i <= 12,
            forall|j: int| 0 <= j < i ==> #[trigger] a[j] == u32_at(bytes@, off + 4 * j),
        decreases 12 - i,
    {
        a[i] = get_u32(bytes, off + 4 * i);
        i = i + 1;
    }
    a
}

/// `b` (of 256 bytes) is the encoding of `d`.
pub open spec fn inode_stored(b: Seq<u8>, d: DiskInode) -> bool {
    &&& b.len() == 256
    &&& d.ino == u64_at(b, 0)
    &&& d.parent == u64_at(b, 8)
    &&& d.size == u64_at(b, 16)
    &&& d.ctime == u64_at(b, 24)
    &&& d.mtime == u64_at(b, 32)
    &&& d.atime == u64_at(b, 40)
    &&& d.uid == u32_at(b, 48)
    &&& d.gid == u32_at(b, 52)
    &&& d.nlink == u32_at(b, 56)
    &&& d.kind == u32_at(b, 60)
    &&& d.mode == u16_at(b, 64)
    &&& d.padding1 == u16_at(b, 66)
    &&& forall|i: int| 0 <= i < 12 ==> #[trigger] d.direct_blocks[i] == u32_at(b, 68 + 4 * i)
    &&& forall|i: int| 0 <= i < 12 ==> #[trigger] d.direct_checksums[i] == u32_at(b, 116 + 4 * i)
    &&& d.indirect_block == u32_at(b, 164)
    &&& d.flags == u32_at(b, 168)
}

/// The 256-byte encoding of `d`: its fields in order, little-endian, then
/// 84 zero bytes.
pub open spec fn inode_encoding(d: DiskInode) -> Seq<u8> {
    spec_u64_to_le_bytes(d.ino) + spec_u64_to_le_bytes(d.parent) + spec_u64_to_le_bytes(d.size)
        + spec_u64_to_le_bytes(d.ctime) + spec_u64_to_le_bytes(d.mtime) + spec_u64_to_le_bytes(d.atime)
        + spec_u32_to_le_bytes(d.uid) + spec_u32_to_le_bytes(d.gid) + spec_u32_to_le_bytes(d.nlink)
        + spec_u32_to_le_bytes(d.kind) + spec_u16_to_le_bytes(d.mode) + spec_u16_to_le_bytes(d.padding1)
        + u32s_bytes(d.direct_blocks@) + u32s_bytes(d.direct_checksums@) + spec_u32_to_le_bytes(
        d.indirect_block,
    ) + spec_u32_to_le_bytes(d.flags) + Seq::new(84, |i: int| 0u8)
}

/// The encoding of `d` stores `d`.
pub proof fn lemma_encoding_stored(d: DiskInode)
    ensures
        inode_stored(inode_encoding(d), d),
{
    lemma_auto_spec_u64_to_from_le_bytes();
    lemma_auto_spec_u32_to_from_le_bytes();
    lemma_auto_spec_u16_to_from_le_bytes();
    lemma_u32s_bytes(d.direct_blocks@);
    lemma_u32s_bytes(d.direct_checksums@);
    let b = inode_encoding(d);
    assert(b.subrange(0, 8) =~= spec_u64_to_le_bytes(d.ino));
    assert(b.subrange(8, 16) =~= spec_u64_to_le_bytes(d.parent));
    assert(b.subrange(16, 24) =~= spec_u64_to_le_bytes(d.size));
    assert(b.subrange(24, 32) =~= spec_u64_to_le_bytes(d.ctime));
    assert(b.subrange(32, 40) =~= spec_u64_to_le_bytes(d.mtime));
    assert(b.subrange(40, 48) =~= spec_u64_to_le_bytes(d.atime));
    assert(b.subrange(48, 52) =~= spec_u32_to_le_bytes(d.uid));
    assert(b.subrange(52, 56) =~= spec_u32_to_le_bytes(d.gid));
    assert(b.subrange(56, 60) =~= spec_u32_to_le_bytes(d.nlink));
    assert(b.subrange(60, 64) =~= spec_u32_to_le_bytes(d.kind));
    assert(b.subrange(64, 66) =~= spec_u16_to_le_bytes(d.mode));
    assert(b.subrange(66, 68) =~= spec_u16_to_le_bytes(d.padding1));
    assert(b.subrange(164, 168) =~= spec_u32_to_le_bytes(d.indirect_block));
    assert(b.subrange(168, 172) =~= spec_u32_to_le_bytes(d.flags));
    let db = u32s_bytes(d.direct_blocks@);
    let dc = u32s_bytes(d.direct_checksums@);
    assert forall|i: int| 0 <= i < 12 implies #[trigger] d.direct_blocks[i] == u32_at(b, 68 + 4 * i) by {
        assert(b.subrange(68 + 4 * i, 68 + 4 * i + 4) =~= db.subrange(4 * i, 4 * i + 4));
        assert(u32_at(db, 4 * i) == d.direct_blocks@[i]);
    }
    assert forall|i: int| 0 <= i < 12 implies #[trigger] d.direct_checksums[i] == u32_at(b, 116 + 4 * i) by {
        assert(b.subrange(116 + 4 * i, 116 + 4 * i + 4) =~= dc.subrange(4 * i, 4 * i + 4));
        assert(u32_at(dc, 4 * i) == d.direct_checksums@[i]);
    }
}

/// Bytes that encode an inode encode exactly one.
pub proof fn lemma_inode_stored_unique(b: Seq<u8>, d1: DiskInode, d2: DiskInode)
    requires
        inode_stored(b, d1),
        inode_stored(b, d2),
    ensures
        d1 == d2,
{
    assert(d1.direct_blocks =~= d2.direct_blocks);
    assert(d1.direct_checksums =~= d2.direct_checksums);
}

/// `r` is a new inode numbered `ino` in directory `parent`: of `kind`, with
/// the given mode and owner, two links for a directory and one otherwise,
/// empty, with no blocks, and its three times equal.
pub open spec fn is_new_inode(r: DiskInode, ino: u64, parent: u64, kind: u32, mode: u16, uid: u32, gid: u32) -> bool {
    &&& r.ino == ino
    &&& r.parent == parent
    &&& r.size == 0
    &&& r.ctime == r.mtime && r.mtime == r.atime
    &&& r.uid == uid
    &&& r.gid == gid
    &&& r.nlink == (if kind == KIND_DIR { 2u32 } else { 1u32 })
    &&& r.kind == kind
    &&& r.mode == mode
    &&& r.padding1 == 0
    &&& forall|i: int| 0 <= i < 12 ==> #[trigger] r.direct_blocks[i] == 0
    &&& forall|i: int| 0 <= i < 12 ==> #[trigger] r.direct_checksums[i] == 0
    &&& r.indirect_block == 0
    &&& r.flags == 0
}

/// `r` is a new inode as `is_new_inode` says, but for its first direct
/// block, which may be set.
pub open spec fn is_new_inode_with_first_block(
    r: DiskInode,
    ino: u64,
    parent: u64,
    kind: u32,
    mode: u16,
    uid: u32,
    gid: u32,
) -> bool {
    &&& r.ino == ino
    &&& r.parent == parent
    &&& r.size == 0
    &&& r.ctime == r.mtime && r.mtime == r.atime
    &&& r.uid == uid
    &&& r.gid == gid
    &&& r.nlink == (if kind == KIND_DIR { 2u32 } else { 1u32 })
    &&& r.kind == kind
    &&& r.mode == mode
    &&& r.padding1 == 0
    &&& forall|i: int| 1 <= i < 12 ==> #[trigger] r.direct_blocks[i] == 0
    &&& forall|i: int| 0 <= i < 12 ==> #[trigger] r.direct_checksums[i] == 0
    &&& r.indirect_block == 0
    &&& r.flags == 0
}

impl DiskInode {
    /// A new inode of `kind`, stamped with the current time: two links for
    /// a directory, one otherwise, and no blocks.
    pub fn new(ino: u64, parent: u64, kind: u32, mode: u16, uid: u32, gid: u32) -> (r: Self)
        ensures
            is_new_inode(r, ino, parent, kind, mode, uid, gid),
            r.ino == ino,
            r.parent == parent,
            r.size == 0,
            r.ctime == r.mtime && r.mtime == r.atime,
            r.uid == uid,
            r.gid == gid,
            r.nlink == (if kind == KIND_DIR { 2u32 } else { 1u32 }),
            r.kind == kind,
            r.mode == mode,
            r.padding1 == 0,
            forall|i: int| 0 <= i < 12 ==> #[trigger] r.direct_blocks[i] == 0,
            forall|i: int| 0 <= i < 12 ==> #[trigger] r.direct_checksums[i] == 0,
            r.indirect_block == 0,
            r.flags == 0,
    {
        let now = unix_now_secs();
        DiskInode {
            ino,
            parent,
            size: 0,
            ctime: now,
            mtime: now,
            atime: now,
            uid,
            gid,
            nlink: if kind == KIND_DIR { 2 } else { 1 },
            kind,
            mode,
            padding1: 0,
            direct_blocks: [0u32; 12],
            direct_checksums: [0u32; 12],
            indirect_block: 0,
            flags: 0,
        }
    }

    /// The 256-byte encoding; its last 84 bytes are zero.
    pub fn to_bytes(&self) -> (out: Vec<u8>)
        ensures
            out@ == inode_encoding(*self),
            inode_stored(out@, *self),
            out@.subrange(172, 256) == Seq::new(84, |i: int| 0u8),
    {
        let mut out: Vec<u8> = Vec::new();
        put_u64(&mut out, self.ino);
        put_u64(&mut out, self.parent);
        put_u64(&mut out, self.size);
        put_u64(&mut out, self.ctime);
        put_u64(&mut out, self.mtime);
        put_u64(&mut out, self.atime);
        put_u32(&mut out, self.uid);
        put_u32(&mut out, self.gid);
        put_u32(&mut out, self.nlink);
        put_u32(&mut out, self.kind);
        put_u16(&mut out, self.mode);
        put_u16(&mut out, self.padding1);
        let ghost head = out@;
        put_u32s(&mut out, &self.direct_blocks);
        let ghost mid = out@;
        put_u32s(&mut out, &self.direct_checksums);
        let ghost mid2 = out@;
        put_u32(&mut out, self.indirect_block);
        put_u32(&mut out, self.flags);
        put_zeros(&mut out, 84);
        proof {
            lemma_auto_spec_u64_to_from_le_bytes();
            lemma_auto_spec_u32_to_from_le_bytes();
            lemma_auto_spec_u16_to_from_le_bytes();
            lemma_u32s_bytes(self.direct_blocks@);
            lemma_u32s_bytes(self.direct_checksums@);
            let b = out@;
            assert(b.subrange(0, 8) =~= spec_u64_to_le_bytes(self.ino));
            assert(b.subrange(8, 16) =~= spec_u64_to_le_bytes(self.parent));
            assert(b.subrange(16, 24) =~= spec_u64_to_le_bytes(self.size));
            assert(b.subrange(24, 32) =~= spec_u64_to_le_bytes(self.ctime));
            assert(b.subrange(32, 40) =~= spec_u64_to_le_bytes(self.mtime));
            assert(b.subrange(40, 48) =~= spec_u64_to_le_bytes(self.atime));
            assert(b.subrange(48, 52) =~= spec_u32_to_le_bytes(self.uid));
            assert(b.subrange(52, 56) =~= spec_u32_to_le_bytes(self.gid));
            assert(b.subrange(56, 60) =~= spec_u32_to_le_bytes(self.nlink));
            assert(b.subrange(60, 64) =~= spec_u32_to_le_bytes(self.kind));
            assert(b.subrange(64, 66) =~= spec_u16_to_le_bytes(self.mode));
            assert(b.subrange(66, 68) =~= spec_u16_to_le_bytes(self.padding1));
            assert(b.subrange(164, 168) =~= spec_u32_to_le_bytes(self.indirect_block));
            assert(b.subrange(168, 172) =~= spec_u32_to_le_bytes(self.flags));
            assert(b.subrange(172, 256) =~= Seq::new(84, |i: int| 0u8));
            assert(b =~= inode_encoding(*self));
            let db = u32s_bytes(self.direct_blocks@);
            let dc = u32s_bytes(self.direct_checksums@);
            assert forall|i: int| 0 <= i < 12 implies #[trigger] self.direct_blocks[i] == u32_at(b, 68 + 4 * i) by {
                assert(b.subrange(68 + 4 * i, 68 + 4 * i + 4) =~= db.subrange(4 * i, 4 * i + 4));
                assert(u32_at(db, 4 * i) == self.direct_blocks@[i]);
            }
            assert forall|i: int| 0 <= i < 12 implies #[trigger] self.direct_checksums[i] == u32_at(b, 116 + 4 * i) by {
                assert(b.subrange(116 + 4 * i, 116 + 4 * i + 4) =~= dc.subrange(4 * i, 4 * i + 4));
                assert(u32_at(dc, 4 * i) == self.direct_checksums@[i]);
            }
        }
        out
    }

    /// Decodes the inode stored at `off`.
    pub fn from_bytes(bytes: &[u8], off: usize) -> (r: Self)
        requires
            off + 256 <= bytes@.len(),
        ensures
            inode_stored(bytes@.subrange(off as int, off + 256), r),
    {
        let _len = bytes.len();
        let ghost b = bytes@.subrange(off as int, off + 256);
        let r = DiskInode {
            ino: get_u64(bytes, off),
            parent: get_u64(bytes, off + 8),
            size: get_u64(bytes, off + 16),
            ctime: get_u64(bytes, off + 24),
            mtime: get_u64(bytes, off + 32),
            atime: get_u64(bytes, off + 40),
            uid: get_u32(bytes, off + 48),
            gid: get_u32(bytes, off + 52),
            nlink: get_u32(bytes, off + 56),
            kind: get_u32(bytes, off + 60),
            mode: get_u16(bytes, off + 64),
            padding1: get_u16(bytes, off + 66),
            direct_blocks: get_u32s(bytes, off + 68),
            direct_checksums: get_u32s(bytes, off + 116),
            indirect_block: get_u32(bytes, off + 164),
            flags: get_u32(bytes, off + 168),
        };
        proof {
            assert(b.subrange(0, 8) =~= bytes@.subrange(off + 0, off + 8));
            assert(b.subrange(8, 16) =~= bytes@.subrange(off + 8, off + 16));
            assert(b.subrange(16, 24) =~= bytes@.subrange(off + 16, off + 24));
            assert(b.subrange(24, 32) =~= bytes@.subrange(off + 24, off + 32));
            assert(b.subrange(32, 40) =~= bytes@.subrange(off + 32, off + 40));
            assert(b.subrange(40, 48) =~= bytes@.subrange(off + 40, off + 48));
            assert(b.subrange(48, 52) =~= bytes@.subrange(off + 48, off + 52));
            assert(b.subrange(52, 56) =~= bytes@.subrange(off + 52, off + 56));
            assert(b.subrange(56, 60) =~= bytes@.subrange(off + 56, off + 60));
            assert(b.subrange(60, 64) =~= bytes@.subrange(off + 60, off + 64));
            assert(b.subrange(64, 66) =~= bytes@.subrange(off + 64, off + 66));
            assert(b.subrange(66, 68) =~= bytes@.subrange(off + 66, off + 68));
            assert(b.subrange(164, 168) =~= bytes@.subrange(off + 164, off + 168));
            assert(b.subrange(168, 172) =~= bytes@.subrange(off + 168, off + 172));
            assert forall|i: int| 0 <= i < 12 implies #[trigger] r.direct_blocks[i] == u32_at(b, 68 + 4 * i) by {
                assert(b.subrange(68 + 4 * i, 68 + 4 * i + 4) =~= bytes@.subrange(off + 68 + 4 * i, off + 68 + 4 * i + 4));
            }
            assert forall|i: int| 0 <= i < 12 implies #[trigger] r.direct_checksums[i] == u32_at(b, 116 + 4 * i) by {
                assert(b.subrange(116 + 4 * i, 116 + 4 * i + 4) =~= bytes@.subrange(off + 116 + 4 * i, off + 116 + 4 * i + 4));
            }
        }
        r
    }
}

/// A directory slot: the entry's inode (0 for a free slot) and its name,
/// zero-padded to 56 bytes.
#[derive(Copy, Clone, Debug)]
pub struct DirEntry {
    pub ino: u64,
    pub name: [u8; 56],
}

/// The length of a zero-padded name: up to its first zero byte.
pub open spec fn padded_len(name: Seq<u8>) -> int
    decreases name.len(),
{
    if name.len() == 0 {
        0
    } else if name[0] == 0 {
        0
    } else {
        1 + padded_len(name.drop_first())
    }
}

pub proof fn lemma_padded_len(name: Seq<u8>)
    ensures
        0 <= padded_len(name) <= name.len(),
        forall|i: int| 0 <= i < padded_len(name) ==> name[i] != 0,
        padded_len(name) < name.len() ==> name[padded_len(name)] == 0,
    decreases name.len(),
{
    if name.len() > 0 && name[0] != 0 {
        lemma_padded_len(name.drop_first());
        assert forall|i: int| 0 <= i < padded_len(name) implies name[i] != 0 by {
            if i > 0 {
                assert(name[i] == name.drop_first()[i - 1]);
            }
        }
    }
}

impl DirEntry {
    /// Decodes the 64-byte slot at `off`.
    pub fn from_bytes(bytes: &[u8], off: usize) -> (r: Self)
        requires
            off + 64 <= bytes@.len(),
        ensures
            r.ino == u64_at(bytes@, off as int),
            r.name@ == bytes@.subrange(off + 8, off + 64),
    {
        let len = bytes.len();
        let ino = get_u64(bytes, off);
        let mut name = [0u8; 56];
        let mut i: usize = 0;
        while i < 56
            invariant
                len == bytes@.len(),
                off + 64 <= bytes@.len(),
                i <= 56,
                forall|j: int| 0 <= j < i ==> #[trigger] name[j] == bytes@[off + 8 + j],
            decreases 56 - i,
        {
            name[i] = bytes[off + 8 + i];
            i = i + 1;
        }
        assert(name@ =~= bytes@.subrange(off + 8, off + 64));
        DirEntry { ino, name }
    }

    /// The 64-byte encoding.
    pub fn to_bytes(&self) -> (out: Vec<u8>)
        ensures
            out@ == spec_u64_to_le_bytes(self.ino) + self.name@,
            out@.len() == 64,
    {
        let mut out: Vec<u8> = Vec::new();
        put_u64(&mut out, self.ino);
        let mut i: usize = 0;
        while i < 56
            invariant
                i <= 56,
                out@ =~= spec_u64_to_le_bytes(self.ino) + self.name@.subrange(0, i as int),
            decreases 56 - i,
        {
            out.push(self.name[i]);
            i = i + 1;
        }
        proof {
            lemma_auto_spec_u64_to_from_le_bytes();
            assert(self.name@.subrange(0, 56) =~= self.name@);
        }
        out
    }

    /// The length of the name: up to its first zero byte.
    pub fn name_len(&self) -> (r: usize)
        ensures
            r == padded_len(self.name@),
    {
        proof {
            lemma_padded_len(self.name@);
        }
        let mut i: usize = 0;
        while i < 56
            invariant
                i <= 56,
                forall|j: int| 0 <= j < i ==> self.name@[j] != 0,
                i <= padded_len(self.name@),
                0 <= padded_len(self.name@) <= 56,
                forall|j: int| 0 <= j < padded_len(self.name@) ==> self.name@[j] != 0,
                padded_len(self.name@) < 56 ==> self.name@[padded_len(self.name@)] == 0,
            decreases 56 - i,
        {
            if self.name[i] == 0 {
                assert(self.name@[i as int] == 0);
                return i;
            }
            assert(self.name@[i as int] != 0);
            i = i + 1;
        }
        i
    }
}

/// Slots of the indirect block: block numbers, then their checksums.
pub const INDIRECT_BLOCK_PTRS: usize = 510;

/// The block pointers and checksums of an indirect block.
#[derive(Copy, Clone, Debug)]
pub struct IndirectBlock {
    pub blocks: [u32; 510],
    pub checksums: [u32; 510],
}

impl IndirectBlock {
    /// Decodes the indirect block stored in `payload`.
    pub fn from_payload(payload: &[u8]) -> (r: Self)
        requires
            payload@.len() >= 4080,
        ensures
            forall|i: int| 0 <= i < 510 ==> #[trigger] r.blocks[i] == u32_at(payload@, 4 * i),
            forall|i: int| 0 <= i < 510 ==> #[trigger] r.checksums[i] == u32_at(payload@, 2040 + 4 * i),
    {
        let len = payload.len();
        let mut blocks = [0u32; 510];
        let mut checksums = [0u32; 510];
        let mut i: usize = 0;
        while i < 510
            invariant
                len == payload@.len(),
                payload@.len() >= 4080,
                i <= 510,
                forall|j: int| 0 <= j < i ==> #[trigger] blocks[j] == u32_at(payload@, 4 * j),
                forall|j: int| 0 <= j < i ==> #[trigger] checksums[j] == u32_at(payload@, 2040 + 4 * j),
            decreases 510 - i,
        {
            blocks[i] = get_u32(payload, 4 * i);
            checksums[i] = get_u32(payload, 2040 + 4 * i);
            i = i + 1;
        }
        IndirectBlock { blocks, checksums }
    }
}

} // verus!
