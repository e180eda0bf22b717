//! Records that LionFS stores in its trees, with their byte layout.
use crate::codec::{
    array254, array32, get_array254, get_array32, get_u16, get_u32, get_u64, lemma_array254,
    lemma_array32, put_bytes, put_u16, put_u32, put_u64, put_u8, put_zeros, BTreeItem,
};
use vstd::bytes::*;
use vstd::prelude::*;

verus! {


/// A run of `length` blocks of a file, from logical block `logical_start`, stored from physical block `physical_start`.
#[derive(Debug, Clone, Copy, PartialEq, Eq, Structural)]
pub struct Extent {
    pub logical_start: u64,
    pub physical_start: u64,
    pub length: u64,
}

impl BTreeItem for Extent {
    open spec fn spec_size() -> nat {
        24
    }

    open spec fn spec_decode(bytes: Seq<u8>) -> Extent {
        Extent {
            logical_start: spec_u64_from_le_bytes(bytes.subrange(0, 8)),
            physical_start: spec_u64_from_le_bytes(bytes.subrange(8, 16)),
            length: spec_u64_from_le_bytes(bytes.subrange(16, 24)),
        }
    }

    proof fn lemma_size_bounds() {
    }

    fn size() -> (n: usize) {
        24
    }

    fn encode_into(&self, out: &mut Vec<u8>) {
        let ghost start = out@;
        let ghost s = start.len() as int;
        put_u64(out, self.logical_start);
        put_u64(out, self.physical_start);
        put_u64(out, self.length);
        proof {
            lemma_auto_spec_u64_to_from_le_bytes();
            lemma_auto_spec_u32_to_from_le_bytes();
            lemma_auto_spec_u16_to_from_le_bytes();
            let e = out@.subrange(s, out@.len() as int);
            assert(out@.subrange(0, s) =~= start);
            assert(e.subrange(0, 8) =~= spec_u64_to_le_bytes(self.logical_start));
            assert(e.subrange(8, 16) =~= spec_u64_to_le_bytes(self.physical_start));
            assert(e.subrange(16, 24) =~= spec_u64_to_le_bytes(self.length));
            assert(Extent::spec_decode(e) == *self);
        }
    }

    fn decode_from(bytes: &[u8], off: usize) -> (r: Extent) {
        let _len = bytes.len();
        let ghost e = bytes@.subrange(off as int, off + 24);
        let logical_start = get_u64(bytes, off + 0);
        let physical_start = get_u64(bytes, off + 8);
        let length = get_u64(bytes, off + 16);
        let r = Extent { logical_start, physical_start, length };
        proof {
            assert(e.subrange(0, 8) =~= bytes@.subrange(off + 0, off + 8));
            assert(e.subrange(8, 16) =~= bytes@.subrange(off + 8, off + 16));
            assert(e.subrange(16, 24) =~= bytes@.subrange(off + 16, off + 24));
        }
        r
    }
}

/// A snapshot: the tree roots it keeps alive. The last 32 bytes of its layout are reserved and zero.
#[derive(Debug, Clone, Copy, PartialEq, Eq, Structural)]
pub struct SnapshotRecord {
    pub id: u64,
    pub parent_id: u64,
    pub creation_time: u64,
    pub generation: u64,
    pub inode_tree_root: u64,
    pub dir_tree_root: u64,
    pub extent_tree_root: u64,
    pub checksum_tree_root: u64,
    pub bad_blocks_root: u64,
    pub flags: u32,
    pub padding: u32,
}

impl BTreeItem for SnapshotRecord {
    open spec fn spec_size() -> nat {
        112
    }

    open spec fn spec_decode(bytes: Seq<u8>) -> SnapshotRecord {
        SnapshotRecord {
            id: spec_u64_from_le_bytes(bytes.subrange(0, 8)),
            parent_id: spec_u64_from_le_bytes(bytes.subrange(8, 16)),
            creation_time: spec_u64_from_le_bytes(bytes.subrange(16, 24)),
            generation: spec_u64_from_le_bytes(bytes.subrange(24, 32)),
            inode_tree_root: spec_u64_from_le_bytes(bytes.subrange(32, 40)),
            dir_tree_root: spec_u64_from_le_bytes(bytes.subrange(40, 48)),
            extent_tree_root: spec_u64_from_le_bytes(bytes.subrange(48, 56)),
            checksum_tree_root: spec_u64_from_le_bytes(bytes.subrange(56, 64)),
            bad_blocks_root: spec_u64_from_le_bytes(bytes.subrange(64, 72)),
            flags: spec_u32_from_le_bytes(bytes.subrange(72, 76)),
            padding: spec_u32_from_le_bytes(bytes.subrange(76, 80)),
        }
    }

    proof fn lemma_size_bounds() {
    }

    fn size() -> (n: usize) {
        112
    }

    fn encode_into(&self, out: &mut Vec<u8>) {
        let ghost start = out@;
        let ghost s = start.len() as int;
        put_u64(out, self.id);
        put_u64(out, self.parent_id);
        put_u64(out, self.creation_time);
        put_u64(out, self.generation);
        put_u64(out, self.inode_tree_root);
        put_u64(out, self.dir_tree_root);
        put_u64(out, self.extent_tree_root);
        put_u64(out, self.checksum_tree_root);
        put_u64(out, self.bad_blocks_root);
        put_u32(out, self.flags);
        put_u32(out, self.padding);
        put_zeros(out, 32);
        proof {
            lemma_auto_spec_u64_to_from_le_bytes();
            lemma_auto_spec_u32_to_from_le_bytes();
            lemma_auto_spec_u16_to_from_le_bytes();
            let e = out@.subrange(s, out@.len() as int);
            assert(out@.subrange(0, s) =~= start);
            assert(e.subrange(0, 8) =~= spec_u64_to_le_bytes(self.id));
            assert(e.subrange(8, 16) =~= spec_u64_to_le_bytes(self.parent_id));
            assert(e.subrange(16, 24) =~= spec_u64_to_le_bytes(self.creation_time));
            assert(e.subrange(24, 32) =~= spec_u64_to_le_bytes(self.generation));
            assert(e.subrange(32, 40) =~= spec_u64_to_le_bytes(self.inode_tree_root));
            assert(e.subrange(40, 48) =~= spec_u64_to_le_bytes(self.dir_tree_root));
            assert(e.subrange(48, 56) =~= spec_u64_to_le_bytes(self.extent_tree_root));
            assert(e.subrange(56, 64) =~= spec_u64_to_le_bytes(self.checksum_tree_root));
            assert(e.subrange(64, 72) =~= spec_u64_to_le_bytes(self.bad_blocks_root));
            assert(e.subrange(72, 76) =~= spec_u32_to_le_bytes(self.flags));
            assert(e.subrange(76, 80) =~= spec_u32_to_le_bytes(self.padding));
            assert(SnapshotRecord::spec_decode(e) == *self);
        }
    }

    fn decode_from(bytes: &[u8], off: usize) -> (r: SnapshotRecord) {
        let _len = bytes.len();
        let ghost e = bytes@.subrange(off as int, off + 112);
        let id = get_u64(bytes, off + 0);
        let parent_id = get_u64(bytes, off + 8);
        let creation_time = get_u64(bytes, off + 16);
        let generation = get_u64(bytes, off + 24);
        let inode_tree_root = get_u64(bytes, off + 32);
        let dir_tree_root = get_u64(bytes, off + 40);
        let extent_tree_root = get_u64(bytes, off + 48);
        let checksum_tree_root = get_u64(bytes, off + 56);
        let bad_blocks_root = get_u64(bytes, off + 64);
        let flags = get_u32(bytes, off + 72);
        let padding = get_u32(bytes, off + 76);
        let r = SnapshotRecord { id, parent_id, creation_time, generation, inode_tree_root, dir_tree_root, extent_tree_root, checksum_tree_root, bad_blocks_root, flags, padding };
        proof {
            assert(e.subrange(0, 8) =~= bytes@.subrange(off + 0, off + 8));
            assert(e.subrange(8, 16) =~= bytes@.subrange(off + 8, off + 16));
            assert(e.subrange(16, 24) =~= bytes@.subrange(off + 16, off + 24));
            assert(e.subrange(24, 32) =~= bytes@.subrange(off + 24, off + 32));
            assert(e.subrange(32, 40) =~= bytes@.subrange(off + 32, off + 40));
            assert(e.subrange(40, 48) =~= bytes@.subrange(off + 40, off + 48));
            assert(e.subrange(48, 56) =~= bytes@.subrange(off + 48, off + 56));
            assert(e.subrange(56, 64) =~= bytes@.subrange(off + 56, off + 64));
            assert(e.subrange(64, 72) =~= bytes@.subrange(off + 64, off + 72));
            assert(e.subrange(72, 76) =~= bytes@.subrange(off + 72, off + 76));
            assert(e.subrange(76, 80) =~= bytes@.subrange(off + 76, off + 80));
        }
        r
    }
}

/// A writable clone of another subvolume. The last 32 bytes of its layout are reserved and zero.
#[derive(Debug, Clone, Copy, PartialEq, Eq, Structural)]
pub struct CloneRecord {
    pub id: u64,
    pub source_id: u64,
    pub generation: u64,
    pub shared_extents: u64,
}

impl BTreeItem for CloneRecord {
    open spec fn spec_size() -> nat {
        64
    }

    open spec fn spec_decode(bytes: Seq<u8>) -> CloneRecord {
        CloneRecord {
            id: spec_u64_from_le_bytes(bytes.subrange(0, 8)),
            source_id: spec_u64_from_le_bytes(bytes.subrange(8, 16)),
            generation: spec_u64_from_le_bytes(bytes.subrange(16, 24)),
            shared_extents: spec_u64_from_le_bytes(bytes.subrange(24, 32)),
        }
    }

    proof fn lemma_size_bounds() {
    }

    fn size() -> (n: usize) {
        64
    }

    fn encode_into(&self, out: &mut Vec<u8>) {
        let ghost start = out@;
        let ghost s = start.len() as int;
        put_u64(out, self.id);
        put_u64(out, self.source_id);
        put_u64(out, self.generation);
        put_u64(out, self.shared_extents);
        put_zeros(out, 32);
        proof {
            lemma_auto_spec_u64_to_from_le_bytes();
            lemma_auto_spec_u32_to_from_le_bytes();
            lemma_auto_spec_u16_to_from_le_bytes();
            let e = out@.subrange(s, out@.len() as int);
            assert(out@.subrange(0, s) =~= start);
            assert(e.subrange(0, 8) =~= spec_u64_to_le_bytes(self.id));
            assert(e.subrange(8, 16) =~= spec_u64_to_le_bytes(self.source_id));
            assert(e.subrange(16, 24) =~= spec_u64_to_le_bytes(self.generation));
            assert(e.subrange(24, 32) =~= spec_u64_to_le_bytes(self.shared_extents));
            assert(CloneRecord::spec_decode(e) == *self);
        }
    }

    fn decode_from(bytes: &[u8], off: usize) -> (r: CloneRecord) {
        let _len = bytes.len();
        let ghost e = bytes@.subrange(off as int, off + 64);
        let id = get_u64(bytes, off + 0);
        let source_id = get_u64(bytes, off + 8);
        let generation = get_u64(bytes, off + 16);
        let shared_extents = get_u64(bytes, off + 24);
        let r = CloneRecord { id, source_id, generation, shared_extents };
        proof {
            assert(e.subrange(0, 8) =~= bytes@.subrange(off + 0, off + 8));
            assert(e.subrange(8, 16) =~= bytes@.subrange(off + 8, off + 16));
            assert(e.subrange(16, 24) =~= bytes@.subrange(off + 16, off + 24));
            assert(e.subrange(24, 32) =~= bytes@.subrange(off + 24, off + 32));
        }
        r
    }
}

/// A subvolume and the roots of its trees. The last 32 bytes of its layout are reserved and zero.
#[derive(Debug, Clone, Copy, PartialEq, Eq, Structural)]
pub struct SubvolumeRecord {
    pub id: u64,
    pub parent_id: u64,
    pub inode_tree_root: u64,
    pub dir_tree_root: u64,
    pub extent_tree_root: u64,
    pub flags: u64,
}

impl BTreeItem for SubvolumeRecord {
    open spec fn spec_size() -> nat {
        80
    }

    open spec fn spec_decode(bytes: Seq<u8>) -> SubvolumeRecord {
        SubvolumeRecord {
            id: spec_u64_from_le_bytes(bytes.subrange(0, 8)),
            parent_id: spec_u64_from_le_bytes(bytes.subrange(8, 16)),
            inode_tree_root: spec_u64_from_le_bytes(bytes.subrange(16, 24)),
            dir_tree_root: spec_u64_from_le_bytes(bytes.subrange(24, 32)),
            extent_tree_root: spec_u64_from_le_bytes(bytes.subrange(32, 40)),
            flags: spec_u64_from_le_bytes(bytes.subrange(40, 48)),
        }
    }

    proof fn lemma_size_bounds() {
    }

    fn size() -> (n: usize) {
        80
    }

    fn encode_into(&self, out: &mut Vec<u8>) {
        let ghost start = out@;
        let ghost s = start.len() as int;
        put_u64(out, self.id);
        put_u64(out, self.parent_id);
        put_u64(out, self.inode_tree_root);
        put_u64(out, self.dir_tree_root);
        put_u64(out, self.extent_tree_root);
        put_u64(out, self.flags);
        put_zeros(out, 32);
        proof {
            lemma_auto_spec_u64_to_from_le_bytes();
            lemma_auto_spec_u32_to_from_le_bytes();
            lemma_auto_spec_u16_to_from_le_bytes();
            let e = out@.subrange(s, out@.len() as int);
            assert(out@.subrange(0, s) =~= start);
            assert(e.subrange(0, 8) =~= spec_u64_to_le_bytes(self.id));
            assert(e.subrange(8, 16) =~= spec_u64_to_le_bytes(self.parent_id));
            assert(e.subrange(16, 24) =~= spec_u64_to_le_bytes(self.inode_tree_root));
            assert(e.subrange(24, 32) =~= spec_u64_to_le_bytes(self.dir_tree_root));
            assert(e.subrange(32, 40) =~= spec_u64_to_le_bytes(self.extent_tree_root));
            assert(e.subrange(40, 48) =~= spec_u64_to_le_bytes(self.flags));
            assert(SubvolumeRecord::spec_decode(e) == *self);
        }
    }

    fn decode_from(bytes: &[u8], off: usize) -> (r: SubvolumeRecord) {
        let _len = bytes.len();
        let ghost e = bytes@.subrange(off as int, off + 80);
        let id = get_u64(bytes, off + 0);
        let parent_id = get_u64(bytes, off + 8);
        let inode_tree_root = get_u64(bytes, off + 16);
        let dir_tree_root = get_u64(bytes, off + 24);
        let extent_tree_root = get_u64(bytes, off + 32);
        let flags = get_u64(bytes, off + 40);
        let r = SubvolumeRecord { id, parent_id, inode_tree_root, dir_tree_root, extent_tree_root, flags };
        proof {
            assert(e.subrange(0, 8) =~= bytes@.subrange(off + 0, off + 8));
            assert(e.subrange(8, 16) =~= bytes@.subrange(off + 8, off + 16));
            assert(e.subrange(16, 24) =~= bytes@.subrange(off + 16, off + 24));
            assert(e.subrange(24, 32) =~= bytes@.subrange(off + 24, off + 32));
            assert(e.subrange(32, 40) =~= bytes@.subrange(off + 32, off + 40));
            assert(e.subrange(40, 48) =~= bytes@.subrange(off + 40, off + 48));
        }
        r
    }
}

/// A 256-byte inode: attributes and up to seven extents inline. Its last 12 bytes are padding.
#[derive(Debug, Clone, Copy)]
pub struct Inode {
    pub ino: u64,
    pub mode: u32,
    pub uid: u32,
    pub gid: u32,
    pub links_count: u32,
    pub flags: u32,
    pub padding1: u32,
    pub size: u64,
    pub ctime: i64,
    pub mtime: i64,
    pub atime: i64,
    pub extent_count: u16,
    pub compression_algo: u8,
    pub encryption_algo: u8,
    pub key_id: u32,
    pub extents: [Extent; 7],
    pub checksum: u32,
}

impl BTreeItem for Inode {
    open spec fn spec_size() -> nat {
        256
    }

    open spec fn spec_decode(bytes: Seq<u8>) -> Inode {
        Inode {
            ino: spec_u64_from_le_bytes(bytes.subrange(0, 8)),
            mode: spec_u32_from_le_bytes(bytes.subrange(8, 12)),
            uid: spec_u32_from_le_bytes(bytes.subrange(12, 16)),
            gid: spec_u32_from_le_bytes(bytes.subrange(16, 20)),
            links_count: spec_u32_from_le_bytes(bytes.subrange(20, 24)),
            flags: spec_u32_from_le_bytes(bytes.subrange(24, 28)),
            padding1: spec_u32_from_le_bytes(bytes.subrange(28, 32)),
            size: spec_u64_from_le_bytes(bytes.subrange(32, 40)),
            ctime: spec_u64_from_le_bytes(bytes.subrange(40, 48)) as i64,
            mtime: spec_u64_from_le_bytes(bytes.subrange(48, 56)) as i64,
            atime: spec_u64_from_le_bytes(bytes.subrange(56, 64)) as i64,
            extent_count: spec_u16_from_le_bytes(bytes.subrange(64, 66)),
            compression_algo: bytes[66],
            encryption_algo: bytes[67],
            key_id: spec_u32_from_le_bytes(bytes.subrange(68, 72)),
            extents: [Extent::spec_decode(bytes.subrange(72, 96)), Extent::spec_decode(bytes.subrange(96, 120)), Extent::spec_decode(bytes.subrange(120, 144)), Extent::spec_decode(bytes.subrange(144, 168)), Extent::spec_decode(bytes.subrange(168, 192)), Extent::spec_decode(bytes.subrange(192, 216)), Extent::spec_decode(bytes.subrange(216, 240))],
            checksum: spec_u32_from_le_bytes(bytes.subrange(240, 244)),
        }
    }

    proof fn lemma_size_bounds() {
    }

    fn size() -> (n: usize) {
        256
    }

    #[verifier::spinoff_prover]
    #[verifier::rlimit(100)]
    fn encode_into(&self, out: &mut Vec<u8>) {
        let ghost start = out@;
        let ghost s = start.len() as int;
        put_u64(out, self.ino);
        put_u32(out, self.mode);
        put_u32(out, self.uid);
        put_u32(out, self.gid);
        put_u32(out, self.links_count);
        put_u32(out, self.flags);
        put_u32(out, self.padding1);
        put_u64(out, self.size);
        put_u64(out, self.ctime as u64);
        put_u64(out, self.mtime as u64);
        put_u64(out, self.atime as u64);
        put_u16(out, self.extent_count);
        put_u8(out, self.compression_algo);
        put_u8(out, self.encryption_algo);
        put_u32(out, self.key_id);
        put_u64(out, self.extents[0].logical_start);
        put_u64(out, self.extents[0].physical_start);
        put_u64(out, self.extents[0].length);
        put_u64(out, self.extents[1].logical_start);
        put_u64(out, self.extents[1].physical_start);
        put_u64(out, self.extents[1].length);
        put_u64(out, self.extents[2].logical_start);
        put_u64(out, self.extents[2].physical_start);
        put_u64(out, self.extents[2].length);
        put_u64(out, self.extents[3].logical_start);
        put_u64(out, self.extents[3].physical_start);
        put_u64(out, self.extents[3].length);
        put_u64(out, self.extents[4].logical_start);
        put_u64(out, self.extents[4].physical_start);
        put_u64(out, self.extents[4].length);
        put_u64(out, self.extents[5].logical_start);
        put_u64(out, self.extents[5].physical_start);
        put_u64(out, self.extents[5].length);
        put_u64(out, self.extents[6].logical_start);
        put_u64(out, self.extents[6].physical_start);
        put_u64(out, self.extents[6].length);
        put_u32(out, self.checksum);
        put_zeros(out, 12);
        proof {
            lemma_auto_spec_u64_to_from_le_bytes();
            lemma_auto_spec_u32_to_from_le_bytes();
            lemma_auto_spec_u16_to_from_le_bytes();
            let e = out@.subrange(s, out@.len() as int);
            assert(out@.subrange(0, s) =~= start);
            assert(e.subrange(0, 8) =~= spec_u64_to_le_bytes(self.ino));
            assert(e.subrange(8, 12) =~= spec_u32_to_le_bytes(self.mode));
            assert(e.subrange(12, 16) =~= spec_u32_to_le_bytes(self.uid));
            assert(e.subrange(16, 20) =~= spec_u32_to_le_bytes(self.gid));
            assert(e.subrange(20, 24) =~= spec_u32_to_le_bytes(self.links_count));
            assert(e.subrange(24, 28) =~= spec_u32_to_le_bytes(self.flags));
            assert(e.subrange(28, 32) =~= spec_u32_to_le_bytes(self.padding1));
            assert(e.subrange(32, 40) =~= spec_u64_to_le_bytes(self.size));
            assert(e.subrange(40, 48) =~= spec_u64_to_le_bytes(self.ctime as u64));
            let vctime = self.ctime;
            assert((vctime as u64) as i64 == vctime) by (bit_vector);
            assert(e.subrange(48, 56) =~= spec_u64_to_le_bytes(self.mtime as u64));
            let vmtime = self.mtime;
            assert((vmtime as u64) as i64 == vmtime) by (bit_vector);
            assert(e.subrange(56, 64) =~= spec_u64_to_le_bytes(self.atime as u64));
            let vatime = self.atime;
            assert((vatime as u64) as i64 == vatime) by (bit_vector);
            assert(e.subrange(64, 66) =~= spec_u16_to_le_bytes(self.extent_count));
            assert(e[66] == self.compression_algo);
            assert(e[67] == self.encryption_algo);
            assert(e.subrange(68, 72) =~= spec_u32_to_le_bytes(self.key_id));
            assert(e.subrange(72, 96).subrange(0, 8) =~= spec_u64_to_le_bytes(self.extents[0].logical_start));
            assert(e.subrange(72, 96).subrange(8, 16) =~= spec_u64_to_le_bytes(self.extents[0].physical_start));
            assert(e.subrange(72, 96).subrange(16, 24) =~= spec_u64_to_le_bytes(self.extents[0].length));
            assert(e.subrange(96, 120).subrange(0, 8) =~= spec_u64_to_le_bytes(self.extents[1].logical_start));
            assert(e.subrange(96, 120).subrange(8, 16) =~= spec_u64_to_le_bytes(self.extents[1].physical_start));
            assert(e.subrange(96, 120).subrange(16, 24) =~= spec_u64_to_le_bytes(self.extents[1].length));
            assert(e.subrange(120, 144).subrange(0, 8) =~= spec_u64_to_le_bytes(self.extents[2].logical_start));
            assert(e.subrange(120, 144).subrange(8, 16) =~= spec_u64_to_le_bytes(self.extents[2].physical_start));
            assert(e.subrange(120, 144).subrange(16, 24) =~= spec_u64_to_le_bytes(self.extents[2].length));
            assert(e.subrange(144, 168).subrange(0, 8) =~= spec_u64_to_le_bytes(self.extents[3].logical_start));
            assert(e.subrange(144, 168).subrange(8, 16) =~= spec_u64_to_le_bytes(self.extents[3].physical_start));
            assert(e.subrange(144, 168).subrange(16, 24) =~= spec_u64_to_le_bytes(self.extents[3].length));
            assert(e.subrange(168, 192).subrange(0, 8) =~= spec_u64_to_le_bytes(self.extents[4].logical_start));
            assert(e.subrange(168, 192).subrange(8, 16) =~= spec_u64_to_le_bytes(self.extents[4].physical_start));
            assert(e.subrange(168, 192).subrange(16, 24) =~= spec_u64_to_le_bytes(self.extents[4].length));
            assert(e.subrange(192, 216).subrange(0, 8) =~= spec_u64_to_le_bytes(self.extents[5].logical_start));
            assert(e.subrange(192, 216).subrange(8, 16) =~= spec_u64_to_le_bytes(self.extents[5].physical_start));
            assert(e.subrange(192, 216).subrange(16, 24) =~= spec_u64_to_le_bytes(self.extents[5].length));
            assert(e.subrange(216, 240).subrange(0, 8) =~= spec_u64_to_le_bytes(self.extents[6].logical_start));
            assert(e.subrange(216, 240).subrange(8, 16) =~= spec_u64_to_le_bytes(self.extents[6].physical_start));
            assert(e.subrange(216, 240).subrange(16, 24) =~= spec_u64_to_le_bytes(self.extents[6].length));
            assert([self.extents[0], self.extents[1], self.extents[2], self.extents[3], self.extents[4], self.extents[5], self.extents[6]] =~= self.extents);
            assert(e.subrange(240, 244) =~= spec_u32_to_le_bytes(self.checksum));
            assert(Inode::spec_decode(e) == *self);
        }
    }

    fn decode_from(bytes: &[u8], off: usize) -> (r: Inode) {
        let _len = bytes.len();
        let ghost e = bytes@.subrange(off as int, off + 256);
        let ino = get_u64(bytes, off + 0);
        let mode = get_u32(bytes, off + 8);
        let uid = get_u32(bytes, off + 12);
        let gid = get_u32(bytes, off + 16);
        let links_count = get_u32(bytes, off + 20);
        let flags = get_u32(bytes, off + 24);
        let padding1 = get_u32(bytes, off + 28);
        let size = get_u64(bytes, off + 32);
        let ctime = get_u64(bytes, off + 40) as i64;
        let mtime = get_u64(bytes, off + 48) as i64;
        let atime = get_u64(bytes, off + 56) as i64;
        let extent_count = get_u16(bytes, off + 64);
        let compression_algo = bytes[off + 66];
        let encryption_algo = bytes[off + 67];
        let key_id = get_u32(bytes, off + 68);
        let extents = [Extent::decode_from(bytes, off + 72), Extent::decode_from(bytes, off + 96), Extent::decode_from(bytes, off + 120), Extent::decode_from(bytes, off + 144), Extent::decode_from(bytes, off + 168), Extent::decode_from(bytes, off + 192), Extent::decode_from(bytes, off + 216)];
        let checksum = get_u32(bytes, off + 240);
        let r = Inode { ino, mode, uid, gid, links_count, flags, padding1, size, ctime, mtime, atime, extent_count, compression_algo, encryption_algo, key_id, extents, checksum };
        proof {
            assert(e.subrange(0, 8) =~= bytes@.subrange(off + 0, off + 8));
            assert(e.subrange(8, 12) =~= bytes@.subrange(off + 8, off + 12));
            assert(e.subrange(12, 16) =~= bytes@.subrange(off + 12, off + 16));
            assert(e.subrange(16, 20) =~= bytes@.subrange(off + 16, off + 20));
            assert(e.subrange(20, 24) =~= bytes@.subrange(off + 20, off + 24));
            assert(e.subrange(24, 28) =~= bytes@.subrange(off + 24, off + 28));
            assert(e.subrange(28, 32) =~= bytes@.subrange(off + 28, off + 32));
            assert(e.subrange(32, 40) =~= bytes@.subrange(off + 32, off + 40));
            assert(e.subrange(40, 48) =~= bytes@.subrange(off + 40, off + 48));
            assert(e.subrange(48, 56) =~= bytes@.subrange(off + 48, off + 56));
            assert(e.subrange(56, 64) =~= bytes@.subrange(off + 56, off + 64));
            assert(e.subrange(64, 66) =~= bytes@.subrange(off + 64, off + 66));
            assert(e[66] == bytes@[off + 66]);
            assert(e[67] == bytes@[off + 67]);
            assert(e.subrange(68, 72) =~= bytes@.subrange(off + 68, off + 72));
            assert(e.subrange(72, 96) =~= bytes@.subrange(off + 72, off + 96));
            assert(e.subrange(96, 120) =~= bytes@.subrange(off + 96, off + 120));
            assert(e.subrange(120, 144) =~= bytes@.subrange(off + 120, off + 144));
            assert(e.subrange(144, 168) =~= bytes@.subrange(off + 144, off + 168));
            assert(e.subrange(168, 192) =~= bytes@.subrange(off + 168, off + 192));
            assert(e.subrange(192, 216) =~= bytes@.subrange(off + 192, off + 216));
            assert(e.subrange(216, 240) =~= bytes@.subrange(off + 216, off + 240));
            assert(e.subrange(240, 244) =~= bytes@.subrange(off + 240, off + 244));
        }
        r
    }
}

pub const LIONFS_MAGIC: u64 = 0x4C494F4E46533130;

pub const MAX_INLINE_EXTENTS: usize = 7;

pub const DEVICE_TREE_NODE_TYPE: u8 = 10;

pub const JOURNAL_MAGIC: u64 = 0x4A4F55524E414C31;

/// The volume superblock: geometry, counters and the roots of every tree.
#[derive(Debug, Clone, Copy)]
pub struct Superblock {
    pub magic: u64,
    pub version: u32,
    pub block_size: u32,
    pub total_blocks: u64,
    pub free_blocks: u64,
    pub inode_count: u64,
    pub root_inode: u64,
    pub flags: u32,
    pub padding1: u32,
    pub bitmap_start: u64,
    pub inode_table_start: u64,
    pub data_region_start: u64,
    pub generation: u64,
    pub checksum: u32,
    pub padding_csum: u32,
    pub journal_start: u64,
    pub journal_blocks: u64,
    pub secondary_sb_1: u64,
    pub secondary_sb_2: u64,
    pub block_group_count: u32,
    pub blocks_per_group: u32,
    pub inode_tree_root: u64,
    pub dir_tree_root: u64,
    pub extent_tree_root: u64,
    pub freespace_tree_root: u64,
    pub next_ino: u64,
    pub checksum_tree_root: u64,
    pub bad_blocks_root: u64,
    pub snapshot_tree_root: u64,
    pub clone_tree_root: u64,
    pub refcount_tree_root: u64,
    pub subvolume_tree_root: u64,
    pub space_map_root: u64,
    pub last_snapshot_generation: u64,
    pub dedupe_tree_root: u64,
    pub key_tree_root: u64,
    /// Which of compression, encryption and deduplication are enabled.
    pub fs_features: u64,
    pub default_compression: u8,
    pub default_encryption: u8,
    pub device_tree_root: u64,
    pub pool_uuid: [u8; 16],
    pub raid_profile: u8,
    pub chunk_size: u32,
}

/// Where a block group keeps its bitmaps and inode table, and its counts.
#[derive(Debug, Clone, Copy, PartialEq, Eq, Structural)]
pub struct BlockGroupDescriptor {
    pub bg_block_bitmap: u64,
    pub bg_inode_bitmap: u64,
    pub bg_inode_table: u64,
    pub bg_free_blocks_count: u32,
    pub bg_free_inodes_count: u32,
    pub bg_used_dirs_count: u32,
    pub bg_padding: u32,
}

/// The block that opens a journal transaction.
#[derive(Debug, Clone, Copy, PartialEq, Eq, Structural)]
pub struct JournalHeader {
    pub magic: u64,
    pub version: u32,
    pub entry_count: u32,
    pub tx_id: u64,
    pub timestamp: u64,
    pub checksum: u32,
    pub padding_csum: u32,
}

/// The block that precedes each journaled data block: where it belongs.
#[derive(Debug, Clone, Copy, PartialEq, Eq, Structural)]
pub struct JournalRecordHeader {
    pub tx_id: u64,
    pub physical_block: u64,
    pub checksum: u32,
    pub padding: u32,
}

/// The block that commits a journal transaction.
#[derive(Debug, Clone, Copy, PartialEq, Eq, Structural)]
pub struct JournalFooter {
    pub magic: u64,
    pub tx_id: u64,
    pub total_records: u32,
    pub checksum: u32,
}

/// The fixed part of a directory entry.
#[derive(Debug, Clone, Copy, PartialEq, Eq, Structural)]
pub struct DirEntryHeader {
    pub ino: u64,
    pub rec_len: u16,
    pub name_len: u8,
    pub file_type: u8,
    pub padding: u32,
}

} // verus!
