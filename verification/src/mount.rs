//! The mounted filesystem: each request served from the volume. The caller
//! hands over the names and data of a request and writes the changed
//! blocks back to the image.
use crate::directory::entries::{lossy_string, same_name, utf8_lossy};
use crate::inode::{
    padded_len, u32_at, DirEntry, DiskInode, DIRECT_BLOCKS, INDIRECT_BLOCK_PTRS, KIND_DIR, KIND_FILE,
    KIND_SYMLINK, PAYLOAD_SIZE,
};
use crate::clock::unix_now_secs;
use crate::codec::{put_bytes, set_bytes};
use crate::lionfs::{block_entries, block_intact, clear_slot, encode_name, find_free_slot, find_named_slot, name_field, payload_checksum, slot_name, write_slot, indirect_get, indirect_set_block, indirect_set_checksum, slot_field, slot_ino, used_slots, Errno};
use crate::recovery::crc32_of;
use crate::codec::splice;
use crate::disk::{bitmap_bit, TOTAL_BLOCKS};
use crate::store::BlockStore;
use crate::volume::{inode_block, inode_offset, DiskManager, BACKUP_SUPERBLOCK};
use crate::inode::{inode_encoding, is_new_inode, is_new_inode_with_first_block, lemma_encoding_stored, lemma_inode_stored_unique};
use crate::store::zero_payload;
use vstd::bytes::*;
use vstd::prelude::*;
use vstd::string::StringSliceAdditionalSpecFns;
use vstd::utf8::valid_utf8;

verus! {

/// `String::from_utf8`'s test: the bytes are valid UTF-8.
#[verifier::external_body]
fn utf8_valid(bytes: &[u8]) -> (r: bool)
    ensures
        r == valid_utf8(bytes@),
{
    std::str::from_utf8(bytes).is_ok()
}

/// The nonzero words of `s`, in order.
pub open spec fn nonzero(s: Seq<u32>) -> Seq<u32>
    decreases s.len(),
{
    if s.len() == 0 {
        Seq::empty()
    } else if s.last() != 0 {
        nonzero(s.drop_last()).push(s.last())
    } else {
        nonzero(s.drop_last())
    }
}

/// The block pointers of an indirect block.
pub open spec fn indirect_ptrs(p: Seq<u8>) -> Seq<u32> {
    Seq::new(510, |i: int| u32_at(p, 4 * i))
}

/// The checksums of an indirect block.
pub open spec fn indirect_sums(p: Seq<u8>) -> Seq<u32> {
    Seq::new(510, |i: int| u32_at(p, 2040 + 4 * i))
}

/// The used entries of a directory block, in slot order: inode and name
/// field.
pub open spec fn block_dir_entries(p: Seq<u8>) -> Seq<(u64, Seq<u8>)> {
    Seq::new(
        used_slots(p, 63).len(),
        |k: int| (slot_ino(p, used_slots(p, 63)[k]), slot_field(p, used_slots(p, 63)[k])),
    )
}

/// The inodes and name fields of `v`.
pub open spec fn entry_pairs(v: Seq<DirEntry>) -> Seq<(u64, Seq<u8>)> {
    Seq::new(v.len(), |k: int| (v[k].ino, v[k].name@))
}

/// The name of an entry as requests see it: its bytes up to the first zero
/// when they are valid UTF-8, else the empty name.
pub open spec fn entry_text(field: Seq<u8>) -> Seq<u8> {
    let n = field.subrange(0, padded_len(field));
    if valid_utf8(n) {
        n
    } else {
        Seq::empty()
    }
}

/// The name stored in an entry's field: its bytes up to the first zero.
pub open spec fn slot_text(field: Seq<u8>) -> Seq<u8> {
    field.subrange(0, padded_len(field))
}

/// What a directory listing reports of a child.
#[derive(Debug, Clone, Copy, PartialEq, Eq, Structural)]
pub enum EntryKind {
    Directory,
    Symlink,
    RegularFile,
}

/// The kind reported for an inode of `kind`.
pub open spec fn kind_shown(kind: u32) -> EntryKind {
    if kind == KIND_DIR {
        EntryKind::Directory
    } else if kind == KIND_SYMLINK {
        EntryKind::Symlink
    } else {
        EntryKind::RegularFile
    }
}

fn kind_of(kind: u32) -> (r: EntryKind)
    ensures
        r == kind_shown(kind),
        kind == KIND_DIR ==> r == EntryKind::Directory,
        kind == KIND_SYMLINK ==> r == EntryKind::Symlink,
        kind != KIND_DIR && kind != KIND_SYMLINK ==> r == EntryKind::RegularFile,
{
    if kind == KIND_DIR {
        EntryKind::Directory
    } else if kind == KIND_SYMLINK {
        EntryKind::Symlink
    } else {
        EntryKind::RegularFile
    }
}

/// The first free slot of a directory block from slot `s` on.
pub open spec fn free_slot_from(p: Seq<u8>, s: int) -> Option<int>
    decreases 63 - s,
{
    if s < 0 || s >= 63 {
        None
    } else if slot_ino(p, s) == 0 {
        Some(s)
    } else {
        free_slot_from(p, s + 1)
    }
}

proof fn lemma_free_slot_from(p: Seq<u8>, k: int, r: Option<usize>)
    requires
        0 <= k <= 63,
        match r {
            Some(s) => k <= s < 63 && slot_ino(p, s as int) == 0 && forall|j: int| k <= j < s ==> #[trigger] slot_ino(p, j) != 0,
            None => forall|j: int| k <= j < 63 ==> #[trigger] slot_ino(p, j) != 0,
        },
    ensures
        free_slot_from(p, k) == match r {
            Some(s) => Some(s as int),
            None => None::<int>,
        },
    decreases 63 - k,
{
    if k < 63 {
        match r {
            Some(s) => {
                if s > k {
                    lemma_free_slot_from(p, k + 1, r);
                }
            },
            None => {
                lemma_free_slot_from(p, k + 1, r);
            },
        }
    }
}

/// The first used slot of a directory block from slot `s` on whose name is
/// `name`.
pub open spec fn named_slot_from(p: Seq<u8>, name: Seq<u8>, s: int) -> Option<int>
    decreases 63 - s,
{
    if s < 0 || s >= 63 {
        None
    } else if slot_ino(p, s) != 0 && slot_name(p, s) == name {
        Some(s)
    } else {
        named_slot_from(p, name, s + 1)
    }
}

proof fn lemma_named_slot_from(p: Seq<u8>, name: Seq<u8>, k: int, r: Option<(usize, u64)>)
    requires
        0 <= k <= 63,
        match r {
            Some((s, ino)) => k <= s < 63 && slot_ino(p, s as int) != 0 && slot_name(p, s as int) == name && forall|j: int|
                k <= j < s ==> !(#[trigger] slot_ino(p, j) != 0 && slot_name(p, j) == name),
            None => forall|j: int| k <= j < 63 ==> !(#[trigger] slot_ino(p, j) != 0 && slot_name(p, j) == name),
        },
    ensures
        named_slot_from(p, name, k) == match r {
            Some((s, _)) => Some(s as int),
            None => None::<int>,
        },
    decreases 63 - k,
{
    if k < 63 {
        match r {
            Some((s, _)) => {
                if s > k {
                    lemma_named_slot_from(p, name, k + 1, r);
                }
            },
            None => {
                lemma_named_slot_from(p, name, k + 1, r);
            },
        }
    }
}

/// The bytes of the entry for inode `ino` named `name`.
pub open spec fn entry_bytes(ino: u64, name: Seq<u8>) -> Seq<u8> {
    spec_u64_to_le_bytes(ino) + name_field(name)
}

/// The mounted filesystem over its volume.
pub struct LionFS {
    pub disk: DiskManager,
}

impl LionFS {
    /// Inode `ino` exists.
    pub open spec fn has_inode(self, ino: u64) -> bool {
        self.disk.has_inode(ino)
    }

    /// The record of inode `ino`.
    pub open spec fn inode(self, ino: u64) -> DiskInode {
        self.disk.inode_of(ino)
    }

    /// The blocks that hold the entries of directory `d`, in order: its
    /// direct blocks, then those of its indirect block.
    pub open spec fn dir_blocks(self, d: DiskInode) -> Seq<u32> {
        nonzero(d.direct_blocks@) + if d.indirect_block != 0 {
            nonzero(indirect_ptrs(self.disk.block(d.indirect_block)))
        } else {
            Seq::empty()
        }
    }

    /// The entries of the blocks `bs`, block by block.
    pub open spec fn entries_in(self, bs: Seq<u32>) -> Seq<(u64, Seq<u8>)>
        decreases bs.len(),
    {
        if bs.len() == 0 {
            Seq::empty()
        } else {
            self.entries_in(bs.drop_last()) + block_dir_entries(self.disk.block(bs.last()))
        }
    }

    /// The entries of directory `d`.
    pub open spec fn dir_entries(self, d: DiskInode) -> Seq<(u64, Seq<u8>)> {
        self.entries_in(self.dir_blocks(d))
    }

    /// The inode that a lookup of `name` finds among the entries `es` from
    /// the `k`-th on: the first entry with that name whose inode exists.
    pub open spec fn first_hit(self, es: Seq<(u64, Seq<u8>)>, name: Seq<u8>, k: int) -> Option<u64>
        decreases es.len() - k,
    {
        if k < 0 || k >= es.len() {
            None
        } else if entry_text(es[k].1) == name && self.has_inode(es[k].0) {
            Some(es[k].0)
        } else {
            self.first_hit(es, name, k + 1)
        }
    }

    /// The inode that a lookup of `name` in directory `parent` finds.
    pub open spec fn lookup_target(self, parent: u64, name: Seq<u8>) -> Option<u64> {
        if self.has_inode(parent) && self.inode(parent).kind == KIND_DIR {
            self.first_hit(self.dir_entries(self.inode(parent)), name, 0)
        } else {
            None
        }
    }

    /// The children that a listing of directory `d` shows, from the entries
    /// `es`: those whose inode exists, with its kind and the name read as
    /// UTF-8.
    pub open spec fn children_shown(self, es: Seq<(u64, Seq<u8>)>) -> Seq<(u64, EntryKind, Seq<char>)>
        decreases es.len(),
    {
        if es.len() == 0 {
            Seq::empty()
        } else {
            let e = es.last();
            self.children_shown(es.drop_last()) + if self.has_inode(e.0) {
                seq![(e.0, kind_shown(self.inode(e.0).kind), utf8_lossy(e.1.subrange(0, padded_len(e.1))))]
            } else {
                Seq::empty()
            }
        }
    }

    /// Every child that a listing shows has an inode, and is shown as a
    /// directory exactly when that inode is a directory, as a symbolic link
    /// exactly when it is one, and as a regular file otherwise.
    pub proof fn lemma_children_kinds(self, es: Seq<(u64, Seq<u8>)>)
        ensures
            forall|i: int| 0 <= i < self.children_shown(es).len() ==> {
                let c = #[trigger] self.children_shown(es)[i];
                &&& self.has_inode(c.0)
                &&& (c.1 == EntryKind::Directory <==> self.inode(c.0).kind == KIND_DIR)
                &&& (c.1 == EntryKind::Symlink <==> self.inode(c.0).kind == KIND_SYMLINK)
                &&& (c.1 == EntryKind::RegularFile <==> (self.inode(c.0).kind != KIND_DIR
                    && self.inode(c.0).kind != KIND_SYMLINK))
            },
        decreases es.len(),
    {
        if es.len() > 0 {
            self.lemma_children_kinds(es.drop_last());
            let a = self.children_shown(es.drop_last());
            assert forall|i: int| 0 <= i < self.children_shown(es).len() implies {
                let c = #[trigger] self.children_shown(es)[i];
                &&& self.has_inode(c.0)
                &&& (c.1 == EntryKind::Directory <==> self.inode(c.0).kind == KIND_DIR)
                &&& (c.1 == EntryKind::Symlink <==> self.inode(c.0).kind == KIND_SYMLINK)
                &&& (c.1 == EntryKind::RegularFile <==> (self.inode(c.0).kind != KIND_DIR
                    && self.inode(c.0).kind != KIND_SYMLINK))
            } by {
                if i < a.len() {
                    assert(self.children_shown(es)[i] == a[i]);
                }
            }
        }
    }

    /// The entries of the used slots of `blocks`, appended to `entries`.
    fn append_block_entries(&self, entries: &mut Vec<DirEntry>, block: u32, Ghost(bs): Ghost<Seq<u32>>)
        requires
            entry_pairs(old(entries)@) == self.entries_in(bs),
        ensures
            entry_pairs(final(entries)@) == self.entries_in(bs.push(block)),
    {
        let buf = self.disk.read_block(block);
        let mut found = block_entries(&buf);
        let ghost a = entries@;
        entries.append(&mut found);
        proof {
            assert(bs.push(block).drop_last() =~= bs);
            assert(entry_pairs(entries@) =~= self.entries_in(bs.push(block)));
        }
    }

    /// The entries of directory `inode`, block by block.
    pub fn get_dir_entries(&self, inode: &DiskInode) -> (r: Vec<DirEntry>)
        ensures
            entry_pairs(r@) == self.dir_entries(*inode),
    {
        let mut entries: Vec<DirEntry> = Vec::new();
        let ghost mut bs: Seq<u32> = Seq::empty();
        assert(entry_pairs(entries@) =~= self.entries_in(bs));
        let mut i: usize = 0;
        while i < DIRECT_BLOCKS
            invariant
                i <= 12,
                bs == nonzero(inode.direct_blocks@.subrange(0, i as int)),
                entry_pairs(entries@) == self.entries_in(bs),
            decreases 12 - i,
        {
            let block = inode.direct_blocks[i];
            proof {
                let t = inode.direct_blocks@.subrange(0, i + 1);
                assert(t.drop_last() =~= inode.direct_blocks@.subrange(0, i as int));
                assert(t.last() == block);
            }
            if block != 0 {
                self.append_block_entries(&mut entries, block, Ghost(bs));
                proof {
                    bs = bs.push(block);
                }
            }
            i = i + 1;
        }
        assert(inode.direct_blocks@.subrange(0, 12) =~= inode.direct_blocks@);
        if inode.indirect_block != 0 {
            let ind_buf = self.disk.read_block(inode.indirect_block);
            let ghost direct = bs;
            let ghost ptrs = indirect_ptrs(ind_buf@);
            let mut j: usize = 0;
            while j < INDIRECT_BLOCK_PTRS
                invariant
                    j <= 510,
                    ind_buf@.len() == PAYLOAD_SIZE,
                    ptrs == indirect_ptrs(ind_buf@),
                    bs == direct + nonzero(ptrs.subrange(0, j as int)),
                    entry_pairs(entries@) == self.entries_in(bs),
                decreases 510 - j,
            {
                let (block, _) = indirect_get(&ind_buf, j);
                proof {
                    let t = ptrs.subrange(0, j + 1);
                    assert(t.drop_last() =~= ptrs.subrange(0, j as int));
                    assert(t.last() == block);
                }
                if block != 0 {
                    self.append_block_entries(&mut entries, block, Ghost(bs));
                    proof {
                        assert(direct + nonzero(ptrs.subrange(0, j + 1)) =~= bs.push(block));
                        bs = bs.push(block);
                    }
                } else {
                    assert(direct + nonzero(ptrs.subrange(0, j + 1)) =~= bs);
                }
                j = j + 1;
            }
            assert(ptrs.subrange(0, 510) =~= ptrs);
        } else {
            assert(bs =~= self.dir_blocks(*inode));
        }
        entries
    }

    /// The entry name `field` read as a request would read it equals `name`.
    fn name_matches(field: &[u8; 56], name: &[u8]) -> (r: bool)
        ensures
            r == (entry_text(field@) == name@),
    {
        let entry = DirEntry { ino: 0, name: *field };
        let len = entry.name_len();
        proof {
            crate::inode::lemma_padded_len(field@);
        }
        let text = vstd::slice::slice_subrange(field.as_slice(), 0, len);
        if utf8_valid(text) {
            same_name(text, name)
        } else {
            proof {
                if name@.len() == 0 {
                    assert(name@ =~= Seq::<u8>::empty());
                }
            }
            name.len() == 0
        }
    }

    /// The attributes of inode `ino`.
    pub fn getattr(&self, ino: u64) -> (r: Result<DiskInode, Errno>)
        ensures
            r == (if self.has_inode(ino) {
                Ok::<DiskInode, Errno>(self.inode(ino))
            } else {
                Err(Errno::NoEntry)
            }),
    {
        match self.disk.read_inode(ino) {
            Some(inode) => Ok(inode),
            None => Err(Errno::NoEntry),
        }
    }

    /// The inode that `name` names in directory `parent`: the first entry
    /// with that name whose inode exists.
    pub fn lookup(&self, parent: u64, name: &str) -> (r: Result<DiskInode, Errno>)
        ensures
            r == (match self.lookup_target(parent, name.spec_bytes()) {
                Some(t) => Ok::<DiskInode, Errno>(self.inode(t)),
                None => Err(Errno::NoEntry),
            }),
    {
        let name_bytes = name.as_bytes();
        if let Some(parent_inode) = self.disk.read_inode(parent) {
            if parent_inode.kind == KIND_DIR {
                let entries = self.get_dir_entries(&parent_inode);
                let ghost es = entry_pairs(entries@);
                let mut k: usize = 0;
                while k < entries.len()
                    invariant
                        k <= entries@.len(),
                        es == entry_pairs(entries@),
                        es == self.dir_entries(parent_inode),
                        self.has_inode(parent),
                        parent_inode == self.inode(parent),
                        parent_inode.kind == KIND_DIR,
                        name_bytes@ == name.spec_bytes(),
                        self.first_hit(es, name_bytes@, 0) == self.first_hit(es, name_bytes@, k as int),
                    decreases entries@.len() - k,
                {
                    let entry = entries[k];
                    if Self::name_matches(&entry.name, name_bytes) {
                        if let Some(inode) = self.disk.read_inode(entry.ino) {
                            assert(es[k as int] == (entry.ino, entry.name@));
                            assert(self.first_hit(es, name_bytes@, k as int) == Some(entry.ino));
                            return Ok(inode);
                        }
                    }
                    k = k + 1;
                }
            }
        }
        Err(Errno::NoEntry)
    }

    /// The listing of directory `ino`: itself as ".", its parent as "..",
    /// then its children whose inodes exist.
    pub fn readdir(&self, ino: u64) -> (r: Result<Vec<(u64, EntryKind, String)>, Errno>)
        ensures
            !(self.has_inode(ino) && self.inode(ino).kind == KIND_DIR) ==> r == Err::<
                Vec<(u64, EntryKind, String)>,
                Errno,
            >(Errno::NoEntry),
            self.has_inode(ino) && self.inode(ino).kind == KIND_DIR ==> (r matches Ok(v) && {
                let d = self.inode(ino);
                let shown = seq![(d.ino, EntryKind::Directory, seq!['.']), (d.parent, EntryKind::Directory, seq!['.', '.'])]
                    + self.children_shown(self.dir_entries(d));
                &&& v@.len() == shown.len()
                &&& forall|k: int| 0 <= k < v@.len() ==> (#[trigger] v@[k].0, v@[k].1, v@[k].2@) == shown[k]
            }),
            r matches Ok(v) ==> forall|k: int| 2 <= k < v@.len() ==> {
                let c = #[trigger] v@[k];
                &&& self.has_inode(c.0)
                &&& (c.1 == EntryKind::Directory <==> self.inode(c.0).kind == KIND_DIR)
                &&& (c.1 == EntryKind::Symlink <==> self.inode(c.0).kind == KIND_SYMLINK)
                &&& (c.1 == EntryKind::RegularFile <==> (self.inode(c.0).kind != KIND_DIR
                    && self.inode(c.0).kind != KIND_SYMLINK))
            },
    {
        let inode = match self.disk.read_inode(ino) {
            Some(inode) => inode,
            None => return Err(Errno::NoEntry),
        };
        if inode.kind != KIND_DIR {
            return Err(Errno::NoEntry);
        }
        let mut out: Vec<(u64, EntryKind, String)> = Vec::new();
        let dot = ".".to_owned();
        let dotdot = "..".to_owned();
        proof {
            reveal_strlit(".");
            reveal_strlit("..");
        }
        out.push((inode.ino, EntryKind::Directory, dot));
        out.push((inode.parent, EntryKind::Directory, dotdot));
        let entries = self.get_dir_entries(&inode);
        let ghost es = entry_pairs(entries@);
        let ghost head = seq![(inode.ino, EntryKind::Directory, seq!['.']), (inode.parent, EntryKind::Directory, seq!['.', '.'])];
        let mut k: usize = 0;
        while k < entries.len()
            invariant
                k <= entries@.len(),
                es == entry_pairs(entries@),
                out@.len() == head.len() + self.children_shown(es.subrange(0, k as int)).len(),
                forall|m: int|
                    0 <= m < out@.len() ==> (#[trigger] out@[m].0, out@[m].1, out@[m].2@) == (head
                        + self.children_shown(es.subrange(0, k as int)))[m],
            decreases entries@.len() - k,
        {
            let entry = entries[k];
            proof {
                let t = es.subrange(0, k + 1);
                assert(t.drop_last() =~= es.subrange(0, k as int));
                assert(t.last() == es[k as int]);
            }
            if let Some(child) = self.disk.read_inode(entry.ino) {
                let len = entry.name_len();
                proof {
                    crate::inode::lemma_padded_len(entry.name@);
                }
                let name = lossy_string(vstd::slice::slice_subrange(entry.name.as_slice(), 0, len));
                out.push((entry.ino, kind_of(child.kind), name));
            }
            k = k + 1;
        }
        proof {
            assert(es.subrange(0, es.len() as int) =~= es);
            self.lemma_children_kinds(es);
            let shown = head + self.children_shown(es);
            assert forall|k: int| 2 <= k < out@.len() implies {
                let c = #[trigger] out@[k];
                &&& self.has_inode(c.0)
                &&& (c.1 == EntryKind::Directory <==> self.inode(c.0).kind == KIND_DIR)
                &&& (c.1 == EntryKind::Symlink <==> self.inode(c.0).kind == KIND_SYMLINK)
                &&& (c.1 == EntryKind::RegularFile <==> (self.inode(c.0).kind != KIND_DIR
                    && self.inode(c.0).kind != KIND_SYMLINK))
            } by {
                assert((out@[k].0, out@[k].1, out@[k].2@) == shown[k]);
                assert(shown[k] == self.children_shown(es)[k - 2]);
            }
        }
        Ok(out)
    }

    /// The target of symbolic link `ino`: the first `size` bytes of its
    /// block.
    pub fn readlink(&self, ino: u64) -> (r: Result<Vec<u8>, Errno>)
        requires
            self.has_inode(ino) && self.inode(ino).kind == KIND_SYMLINK && self.inode(ino).direct_blocks[0] != 0
                ==> self.inode(ino).size <= PAYLOAD_SIZE,
        ensures
            ({
                let d = self.inode(ino);
                if self.has_inode(ino) && d.kind == KIND_SYMLINK && d.direct_blocks[0] != 0 {
                    r matches Ok(v) && v@ == self.disk.block(d.direct_blocks[0]).subrange(0, d.size as int)
                } else {
                    r == Err::<Vec<u8>, Errno>(Errno::NoEntry)
                }
            }),
    {
        if let Some(inode) = self.disk.read_inode(ino) {
            if inode.kind == KIND_SYMLINK {
                let block = inode.direct_blocks[0];
                if block != 0 {
                    let buf = self.disk.read_block(block);
                    let target = vstd::slice::slice_subrange(buf.as_slice(), 0, inode.size as usize);
                    return Ok(vstd::slice::slice_to_vec(target));
                }
            }
        }
        Err(Errno::NoEntry)
    }

    /// Where block `idx` of file `d` lies and its checksum, without
    /// allocating: `(0, 0)` for a hole; past the largest file, `FileTooBig`.
    pub open spec fn mapped(self, d: DiskInode, idx: int) -> Result<(u32, u32), Errno> {
        if idx < 12 {
            if d.direct_blocks[idx] == 0 {
                Ok((0u32, 0u32))
            } else {
                Ok((d.direct_blocks[idx], d.direct_checksums[idx]))
            }
        } else if idx - 12 >= 510 {
            Err(Errno::FileTooBig)
        } else if d.indirect_block == 0 {
            Ok((0u32, 0u32))
        } else {
            let p = self.disk.block(d.indirect_block);
            let b = u32_at(p, 4 * (idx - 12));
            if b == 0 {
                Ok((0u32, 0u32))
            } else {
                Ok((b, u32_at(p, 2040 + 4 * (idx - 12))))
            }
        }
    }

    /// The bytes of file `d` that a read gives from position `cur` up to
    /// `end`: block by block, up to the first hole; a block whose checksum
    /// is recorded (not 0) and does not match fails the read with `Io`.
    pub open spec fn read_from(self, d: DiskInode, end: int, cur: int) -> Result<Seq<u8>, Errno>
        decreases end - cur,
    {
        if cur < 0 || cur >= end {
            Ok(Seq::empty())
        } else {
            let idx = cur / PAYLOAD_SIZE as int;
            match self.mapped(d, idx) {
                Err(e) => Err(e),
                Ok((b, c)) => if b == 0 {
                    Ok(Seq::empty())
                } else if c != 0 && crc32_of(self.disk.block(b)) != c {
                    Err(Errno::Io)
                } else {
                    let off = cur % PAYLOAD_SIZE as int;
                    let n = if PAYLOAD_SIZE - off < end - cur {
                        PAYLOAD_SIZE - off
                    } else {
                        end - cur
                    };
                    match self.read_from(d, end, cur + n) {
                        Ok(rest) => Ok(self.disk.block(b).subrange(off, off + n) + rest),
                        Err(e) => Err(e),
                    }
                },
            }
        }
    }

    /// What a read of `size` bytes at `offset` from inode `ino` gives.
    pub open spec fn read_result(self, ino: u64, offset: u64, size: u32) -> Result<Seq<u8>, Errno> {
        if !self.has_inode(ino) {
            Err(Errno::NoEntry)
        } else {
            let d = self.inode(ino);
            if offset >= d.size {
                Ok(Seq::empty())
            } else {
                let n = if offset + size > d.size {
                    d.size - offset
                } else {
                    size as int
                };
                self.read_from(d, offset + n, offset as int)
            }
        }
    }

    /// Where block `idx` of file `inode` lies and its checksum, without
    /// allocating.
    pub fn file_block(&self, inode: &DiskInode, idx: usize) -> (r: Result<(u32, u32), Errno>)
        ensures
            r == self.mapped(*inode, idx as int),
    {
        if idx < DIRECT_BLOCKS {
            let block = inode.direct_blocks[idx];
            if block == 0 {
                return Ok((0, 0));
            }
            return Ok((block, inode.direct_checksums[idx]));
        }
        let indirect_idx = idx - DIRECT_BLOCKS;
        if indirect_idx >= INDIRECT_BLOCK_PTRS {
            return Err(Errno::FileTooBig);
        }
        if inode.indirect_block == 0 {
            return Ok((0, 0));
        }
        let ind_buf = self.disk.read_block(inode.indirect_block);
        let (block, checksum) = indirect_get(&ind_buf, indirect_idx);
        if block == 0 {
            return Ok((0, 0));
        }
        Ok((block, checksum))
    }

    /// Reads `size` bytes at `offset` from inode `ino`, up to the end of the
    /// file and up to its first hole; every block read is checked against
    /// its recorded checksum.
    pub fn read(&self, ino: u64, offset: u64, size: u32) -> (r: Result<Vec<u8>, Errno>)
        requires
            self.has_inode(ino) && offset < self.inode(ino).size ==> (offset > 0 || size > 0) && offset + size
                <= u64::MAX,
        ensures
            match r {
                Ok(v) => self.read_result(ino, offset, size) == Ok::<Seq<u8>, Errno>(v@),
                Err(e) => self.read_result(ino, offset, size) == Err::<Seq<u8>, Errno>(e),
            },
    {
        let inode = match self.disk.read_inode(ino) {
            Some(inode) => inode,
            None => return Err(Errno::NoEntry),
        };
        if offset >= inode.size {
            return Ok(Vec::new());
        }
        let mut read_size = size as u64;
        if offset + read_size > inode.size {
            read_size = inode.size - offset;
        }
        let end = offset + read_size;
        let mut data: Vec<u8> = Vec::new();
        let mut current_offset = offset;
        while current_offset < end
            invariant
                offset <= current_offset <= end,
                inode == self.inode(ino),
                self.read_result(ino, offset, size) == self.read_from(inode, end as int, offset as int),
                self.read_from(inode, end as int, offset as int) == match self.read_from(
                    inode,
                    end as int,
                    current_offset as int,
                ) {
                    Ok(rest) => Ok::<Seq<u8>, Errno>(data@ + rest),
                    Err(e) => Err(e),
                },
            ensures
                self.read_result(ino, offset, size) == Ok::<Seq<u8>, Errno>(data@),
            decreases end - current_offset,
        {
            let block_idx = current_offset / PAYLOAD_SIZE as u64;
            if block_idx >= 522 {
                return Err(Errno::FileTooBig);
            }
            match self.file_block(&inode, block_idx as usize) {
                Ok((block, expected_crc)) => {
                    if block == 0 {
                        assert(data@ + Seq::<u8>::empty() =~= data@);
                        assert(self.read_from(inode, end as int, current_offset as int) == Ok::<Seq<u8>, Errno>(
                            Seq::empty(),
                        ));
                        break;
                    }
                    let buf = self.disk.read_block(block);
                    if !block_intact(&buf, expected_crc) {
                        return Err(Errno::Io);
                    }
                    let block_offset = (current_offset % PAYLOAD_SIZE as u64) as usize;
                    let room = PAYLOAD_SIZE - block_offset;
                    let left = end - current_offset;
                    let chunk_size: usize = if (room as u64) < left { room } else { left as usize };
                    let chunk = vstd::slice::slice_subrange(buf.as_slice(), block_offset, block_offset + chunk_size);
                    let ghost before = data@;
                    put_bytes(&mut data, chunk);
                    current_offset = current_offset + chunk_size as u64;
                    proof {
                        let rest = self.read_from(inode, end as int, current_offset as int);
                        if let Ok(t) = rest {
                            assert(before + (chunk@ + t) =~= data@ + t);
                        }
                    }
                },
                Err(e) => {
                    return Err(e);
                },
            }
        }
        proof {
            assert(data@ + Seq::<u8>::empty() =~= data@);
        }
        Ok(data)
    }

    /// Block `idx` of file `inode` and its checksum, allocating what is
    /// missing when `allocate` is set: the direct block, or the indirect
    /// block and then the pointer in it. Without `allocate` nothing changes
    /// and a hole is `(0, 0)`.
    pub fn get_file_block(&mut self, inode: &mut DiskInode, idx: usize, allocate: bool) -> (r: Result<
        (u32, u32),
        Errno,
    >)
        ensures
            old(self).disk.store.changes_listed(final(self).disk.store),
            !allocate ==> {
                &&& r == old(self).mapped(*old(inode), idx as int)
                &&& *final(inode) == *old(inode)
                &&& *final(self) == *old(self)
            },
            *final(inode) == (DiskInode {
                direct_blocks: final(inode).direct_blocks,
                indirect_block: final(inode).indirect_block,
                ..*old(inode)
            }),
            r == Err::<(u32, u32), Errno>(Errno::FileTooBig) <==> idx >= 522,
            allocate && idx < 522 && r is Err ==> r == Err::<(u32, u32), Errno>(Errno::NoSpace),
            allocate && bitmap_bit(old(self).disk.block(1), 0) && bitmap_bit(old(self).disk.block(1), 1) ==> (r matches Ok(
                (b, _),
            ) ==> b != 0),
            allocate && 12 <= idx < 522 && bitmap_bit(old(self).disk.block(1), 0) && bitmap_bit(old(self).disk.block(1), 1)
                ==> match r {
                Ok((b, c)) => {
                    &&& b != 0
                    &&& final(self).mapped(*final(inode), idx as int) == Ok::<(u32, u32), Errno>((b, c))
                    &&& old(self).mapped(*old(inode), idx as int) != Ok::<(u32, u32), Errno>((0u32, 0u32)) ==> {
                        &&& old(self).mapped(*old(inode), idx as int) == Ok::<(u32, u32), Errno>((b, c))
                        &&& *final(inode) == *old(inode)
                        &&& *final(self) == *old(self)
                    }
                    &&& old(self).mapped(*old(inode), idx as int) == Ok::<(u32, u32), Errno>((0u32, 0u32)) ==> {
                        &&& !bitmap_bit(old(self).disk.block(1), b as int)
                        &&& old(inode).indirect_block != 1 ==> bitmap_bit(final(self).disk.block(1), b as int)
                    }
                },
                Err(_) => true,
            },
            allocate && idx < 12 && old(inode).direct_blocks[idx as int] == 0 ==> (r matches Ok((b, _)) ==> !bitmap_bit(
                old(self).disk.block(1),
                b as int,
            ) && (b != 1 ==> bitmap_bit(final(self).disk.block(1), b as int))),
            r == Err::<(u32, u32), Errno>(Errno::NoSpace) ==> forall|c: int|
                0 <= c < TOTAL_BLOCKS ==> #[trigger] bitmap_bit(final(self).disk.block(1), c),
            allocate && idx < 12 ==> match r {
                Ok((b, c)) => {
                    &&& final(inode).direct_blocks@ == old(inode).direct_blocks@.update(idx as int, b)
                    &&& c == old(inode).direct_checksums[idx as int]
                    &&& old(inode).direct_blocks[idx as int] != 0 ==> b == old(inode).direct_blocks[idx as int]
                        && *final(self) == *old(self)
                },
                Err(_) => *final(inode) == *old(inode),
            },
    {
        if !allocate {
            return self.file_block(inode, idx);
        }
        if idx < DIRECT_BLOCKS {
            let mut block = inode.direct_blocks[idx];
            if block == 0 {
                match self.disk.allocate_block() {
                    Some(new_block) => {
                        inode.direct_blocks[idx] = new_block;
                        block = new_block;
                    },
                    None => return Err(Errno::NoSpace),
                }
            } else {
                assert(inode.direct_blocks@ =~= inode.direct_blocks@.update(idx as int, block));
            }
            return Ok((block, inode.direct_checksums[idx]));
        }
        let indirect_idx = idx - DIRECT_BLOCKS;
        if indirect_idx >= INDIRECT_BLOCK_PTRS {
            return Err(Errno::FileTooBig);
        }
        let ghost start = self.disk.store;
        let ghost f0 = *self;
        let ghost d0 = *inode;
        let ghost meta = bitmap_bit(f0.disk.block(1), 0) && bitmap_bit(f0.disk.block(1), 1);
        let fresh = inode.indirect_block == 0;
        if fresh {
            match self.disk.allocate_block() {
                Some(new_block) => {
                    inode.indirect_block = new_block;
                    proof {
                        if meta {
                            assert(new_block != 0 && new_block != 1);
                            assert(bitmap_bit(self.disk.block(1), 0));
                        }
                    }
                },
                None => return Err(Errno::NoSpace),
            }
        }
        let ghost s1 = self.disk.store;
        let ghost f1 = *self;
        proof {
            if meta {
                assert(inode.indirect_block != 0);
                assert(bitmap_bit(f1.disk.block(1), 0));
                assert forall|c: int| 0 <= c < TOTAL_BLOCKS && bitmap_bit(f0.disk.block(1), c) implies #[trigger] bitmap_bit(
                    f1.disk.block(1),
                    c,
                ) by {}
            }
        }
        let mut ind_buf: Vec<u8> = if fresh {
            vec![0u8; PAYLOAD_SIZE]
        } else {
            self.disk.read_block(inode.indirect_block)
        };
        let mut block: u32 = if fresh {
            0
        } else {
            indirect_get(&ind_buf, indirect_idx).0
        };
        if block == 0 {
            match self.disk.allocate_block() {
                Some(new_block) => {
                    proof {
                        BlockStore::lemma_changes_listed_trans(start, s1, self.disk.store);
                    }
                    let ghost buf0 = ind_buf@;
                    indirect_set_block(&mut ind_buf, indirect_idx, new_block);
                    proof {
                        lemma_auto_spec_u32_to_from_le_bytes();
                        crate::lionfs::lemma_indirect_set_get(buf0, indirect_idx as int, new_block, indirect_idx as int);
                    }
                    assert(ind_buf@.len() == PAYLOAD_SIZE);
                    block = new_block;
                    let ghost s2 = self.disk.store;
                    self.disk.write_block(inode.indirect_block, &ind_buf);
                    proof {
                        BlockStore::lemma_changes_listed_trans(start, s2, self.disk.store);
                    }
                },
                None => {
                    proof {
                        BlockStore::lemma_changes_listed_trans(start, s1, self.disk.store);
                    }
                    return Err(Errno::NoSpace);
                },
            }
        }
        let (_, checksum) = indirect_get(&ind_buf, indirect_idx);
        proof {
            if meta {
                assert(self.disk.block(inode.indirect_block) == ind_buf@);
                assert(block != 0);
            }
        }
        Ok((block, checksum))
    }

    /// Records `checksum` for block `idx` of file `inode`: in the inode for a
    /// direct block, else in the indirect block if there is one.
    pub fn set_file_block_checksum(&mut self, inode: &mut DiskInode, idx: usize, checksum: u32)
        requires
            idx >= 12 && old(inode).indirect_block != 0 ==> idx - 12 < 510,
        ensures
            old(self).disk.store.changes_listed(final(self).disk.store),
            idx < 12 ==> {
                &&& final(inode).direct_checksums@ == old(inode).direct_checksums@.update(idx as int, checksum)
                &&& *final(inode) == (DiskInode { direct_checksums: final(inode).direct_checksums, ..*old(inode) })
                &&& *final(self) == *old(self)
            },
            idx >= 12 ==> {
                &&& *final(inode) == *old(inode)
                &&& old(inode).indirect_block == 0 ==> *final(self) == *old(self)
                &&& old(inode).indirect_block != 0 ==> {
                    &&& final(self).disk.block(old(inode).indirect_block) == splice(
                        old(self).disk.block(old(inode).indirect_block),
                        2040 + 4 * (idx - 12),
                        spec_u32_to_le_bytes(checksum),
                    )
                    &&& forall|x: u32|
                        x != old(inode).indirect_block ==> #[trigger] final(self).disk.block(x) == old(self).disk.block(x)
                }
            },
    {
        if idx < DIRECT_BLOCKS {
            inode.direct_checksums[idx] = checksum;
        } else {
            let indirect_idx = idx - DIRECT_BLOCKS;
            if inode.indirect_block != 0 {
                let mut ind_buf = self.disk.read_block(inode.indirect_block);
                indirect_set_checksum(&mut ind_buf, indirect_idx, checksum);
                proof {
                    lemma_auto_spec_u32_to_from_le_bytes();
                }
                assert(ind_buf@.len() == PAYLOAD_SIZE);
                self.disk.write_block(inode.indirect_block, &ind_buf);
            }
        }
    }

    /// Records `block_id` as block `idx` of file `inode`: in the inode for a
    /// direct block, else in the indirect block if there is one.
    pub fn set_file_block_id(&mut self, inode: &mut DiskInode, idx: usize, block_id: u32)
        requires
            idx >= 12 && old(inode).indirect_block != 0 ==> idx - 12 < 510,
        ensures
            old(self).disk.store.changes_listed(final(self).disk.store),
            idx < 12 ==> {
                &&& final(inode).direct_blocks@ == old(inode).direct_blocks@.update(idx as int, block_id)
                &&& *final(inode) == (DiskInode { direct_blocks: final(inode).direct_blocks, ..*old(inode) })
                &&& *final(self) == *old(self)
            },
            idx >= 12 ==> {
                &&& *final(inode) == *old(inode)
                &&& old(inode).indirect_block == 0 ==> *final(self) == *old(self)
                &&& old(inode).indirect_block != 0 ==> {
                    &&& final(self).disk.block(old(inode).indirect_block) == splice(
                        old(self).disk.block(old(inode).indirect_block),
                        4 * (idx - 12),
                        spec_u32_to_le_bytes(block_id),
                    )
                    &&& forall|x: u32|
                        x != old(inode).indirect_block ==> #[trigger] final(self).disk.block(x) == old(self).disk.block(x)
                }
            },
    {
        if idx < DIRECT_BLOCKS {
            inode.direct_blocks[idx] = block_id;
        } else {
            let indirect_idx = idx - DIRECT_BLOCKS;
            if inode.indirect_block != 0 {
                let mut ind_buf = self.disk.read_block(inode.indirect_block);
                indirect_set_block(&mut ind_buf, indirect_idx, block_id);
                proof {
                    lemma_auto_spec_u32_to_from_le_bytes();
                }
                assert(ind_buf@.len() == PAYLOAD_SIZE);
                self.disk.write_block(inode.indirect_block, &ind_buf);
            }
        }
    }

    /// Block `c` is one that freeing file `d` from block `start` on gives
    /// back: a direct block from `start` on, a block of the indirect block
    /// from there on, or the indirect block itself when freeing reaches all
    /// of it.
    pub open spec fn frees(self, d: DiskInode, start: int, c: int) -> bool {
        c != 0 && ((exists|i: int| start <= i < 12 && #[trigger] d.direct_blocks[i] == c) || (d.indirect_block != 0
            && start < 522 && exists|j: int|
            (if start > 12 {
                start - 12
            } else {
                0
            }) <= j < 510 && #[trigger] u32_at(self.disk.block(d.indirect_block), 4 * j) == c) || (d.indirect_block
            != 0 && start <= 12 && c == d.indirect_block))
    }

    /// Frees the blocks of file `inode` from block `start_idx` on: the
    /// direct ones, those listed in the indirect block, and the indirect
    /// block itself when freeing starts within the direct blocks.
    pub fn free_file_blocks(&mut self, inode: &mut DiskInode, start_idx: usize)
        ensures
            old(self).disk.store.changes_listed(final(self).disk.store),
            old(self).disk.same_but(final(self).disk, 0, 1, BACKUP_SUPERBLOCK, old(inode).indirect_block),
            forall|i: int|
                0 <= i < 12 ==> #[trigger] final(inode).direct_blocks[i] == if i >= start_idx {
                    0
                } else {
                    old(inode).direct_blocks[i]
                },
            final(inode).indirect_block == if old(inode).indirect_block != 0 && start_idx <= 12 {
                0
            } else {
                old(inode).indirect_block
            },
            *final(inode) == (DiskInode {
                direct_blocks: final(inode).direct_blocks,
                indirect_block: final(inode).indirect_block,
                ..*old(inode)
            }),
            old(inode).indirect_block != 1 && old(inode).indirect_block != BACKUP_SUPERBLOCK ==> forall|c: int|
                0 <= c < TOTAL_BLOCKS ==> #[trigger] bitmap_bit(final(self).disk.block(1), c) == (bitmap_bit(
                    old(self).disk.block(1),
                    c,
                ) && !old(self).frees(*old(inode), start_idx as int, c)),
            old(inode).indirect_block != 0 && old(inode).indirect_block != 1 && old(inode).indirect_block
                != BACKUP_SUPERBLOCK && 12 < start_idx < 522 ==> {
                &&& indirect_ptrs(final(self).disk.block(old(inode).indirect_block)) == Seq::new(
                    510,
                    |j: int|
                        if j >= start_idx - 12 {
                            0u32
                        } else {
                            indirect_ptrs(old(self).disk.block(old(inode).indirect_block))[j]
                        },
                )
                &&& indirect_sums(final(self).disk.block(old(inode).indirect_block)) == indirect_sums(
                    old(self).disk.block(old(inode).indirect_block),
                )
            },
    {
        let ghost d0 = *inode;
        let ghost s0 = self.disk;
        let ghost f0 = *self;
        let mut idx = start_idx;
        while idx < DIRECT_BLOCKS
            invariant
                start_idx <= idx,
                idx <= 12 || idx == start_idx,
                forall|i: int|
                    0 <= i < 12 ==> #[trigger] inode.direct_blocks[i] == if start_idx <= i < idx {
                        0
                    } else {
                        d0.direct_blocks[i]
                    },
                *inode == (DiskInode { direct_blocks: inode.direct_blocks, ..d0 }),
                s0.store.changes_listed(self.disk.store),
                s0.same_but(self.disk, 0, 1, BACKUP_SUPERBLOCK, 0),
                forall|c: int|
                    0 <= c < TOTAL_BLOCKS ==> #[trigger] bitmap_bit(self.disk.block(1), c) == (bitmap_bit(s0.block(1), c)
                        && !(c != 0 && exists|i: int| start_idx <= i < idx && #[trigger] d0.direct_blocks[i] == c)),
            decreases 12 - idx,
        {
            let block = inode.direct_blocks[idx];
            let ghost before = self.disk;
            if block != 0 {
                self.disk.free_block(block);
                inode.direct_blocks[idx] = 0;
            }
            proof {
                BlockStore::lemma_changes_listed_trans(s0.store, before.store, self.disk.store);
                assert forall|c: int| 0 <= c < TOTAL_BLOCKS implies #[trigger] bitmap_bit(self.disk.block(1), c) == (
                bitmap_bit(s0.block(1), c) && !(c != 0 && exists|i: int|
                    start_idx <= i < idx + 1 && #[trigger] d0.direct_blocks[i] == c)) by {
                    if c != 0 && d0.direct_blocks[idx as int] == c {
                        assert(start_idx <= idx < idx + 1);
                    }
                    if c != 0 && exists|i: int| start_idx <= i < idx + 1 && #[trigger] d0.direct_blocks[i] == c {
                        let i = choose|i: int| start_idx <= i < idx + 1 && #[trigger] d0.direct_blocks[i] == c;
                        if i < idx {
                            assert(exists|i: int| start_idx <= i < idx && #[trigger] d0.direct_blocks[i] == c);
                        }
                    }
                }
            }
            idx = idx + 1;
        }
        proof {
            assert forall|c: int| 0 <= c < TOTAL_BLOCKS implies #[trigger] bitmap_bit(self.disk.block(1), c) == (
            bitmap_bit(s0.block(1), c) && !(c != 0 && exists|i: int|
                start_idx <= i < 12 && #[trigger] d0.direct_blocks[i] == c)) by {
                if exists|i: int| start_idx <= i < 12 && #[trigger] d0.direct_blocks[i] == c {
                    let i = choose|i: int| start_idx <= i < 12 && #[trigger] d0.direct_blocks[i] == c;
                    assert(start_idx <= i < idx);
                }
            }
        }
        if inode.indirect_block != 0 && start_idx < DIRECT_BLOCKS + INDIRECT_BLOCK_PTRS {
            let ind = inode.indirect_block;
            let ghost s1 = self.disk;
            let mut ind_buf = self.disk.read_block(ind);
            let ghost p0 = ind_buf@;
            let ind_start: usize = if start_idx > DIRECT_BLOCKS {
                start_idx - DIRECT_BLOCKS
            } else {
                0
            };
            let mut modified = false;
            let mut i = ind_start;
            while i < INDIRECT_BLOCK_PTRS
                invariant
                    ind_start <= i <= 510,
                    ind == d0.indirect_block,
                    ind_buf@.len() == PAYLOAD_SIZE,
                    p0.len() == PAYLOAD_SIZE,
                    p0 == s1.block(ind),
                    forall|j: int|
                        0 <= j < 510 ==> #[trigger] u32_at(ind_buf@, 4 * j) == if ind_start <= j < i {
                            0
                        } else {
                            u32_at(p0, 4 * j)
                        },
                    forall|j: int| 0 <= j < 510 ==> #[trigger] u32_at(ind_buf@, 2040 + 4 * j) == u32_at(p0, 2040 + 4 * j),
                    !modified ==> ind_buf@ == p0,
                    !modified ==> forall|j: int| ind_start <= j < i ==> #[trigger] u32_at(p0, 4 * j) == 0,
                    s0.store.changes_listed(self.disk.store),
                    s1.same_but(self.disk, 0, 1, BACKUP_SUPERBLOCK, 0),
                    forall|c: int|
                        0 <= c < TOTAL_BLOCKS ==> #[trigger] bitmap_bit(self.disk.block(1), c) == (bitmap_bit(
                            s1.block(1),
                            c,
                        ) && !(c != 0 && exists|j: int| ind_start <= j < i && #[trigger] u32_at(p0, 4 * j) == c)),
                decreases 510 - i,
            {
                let (block, _) = indirect_get(&ind_buf, i);
                let ghost before = self.disk;
                let ghost buf_before = ind_buf@;
                if block != 0 {
                    self.disk.free_block(block);
                    indirect_set_block(&mut ind_buf, i, 0);
                    proof {
                        assert forall|j: int| 0 <= j < 510 implies #[trigger] u32_at(ind_buf@, 4 * j) == if ind_start
                            <= j < i + 1 {
                            0
                        } else {
                            u32_at(p0, 4 * j)
                        } by {
                            crate::lionfs::lemma_indirect_set_get(buf_before, i as int, 0, j);
                        }
                        assert forall|j: int| 0 <= j < 510 implies #[trigger] u32_at(ind_buf@, 2040 + 4 * j) == u32_at(
                            p0,
                            2040 + 4 * j,
                        ) by {
                            crate::lionfs::lemma_indirect_set_get(buf_before, i as int, 0, j);
                        }
                        lemma_auto_spec_u32_to_from_le_bytes();
                    }
                    modified = true;
                }
                proof {
                    BlockStore::lemma_changes_listed_trans(s0.store, before.store, self.disk.store);
                    assert forall|c: int| 0 <= c < TOTAL_BLOCKS implies #[trigger] bitmap_bit(self.disk.block(1), c) == (
                    bitmap_bit(s1.block(1), c) && !(c != 0 && exists|j: int|
                        ind_start <= j < i + 1 && #[trigger] u32_at(p0, 4 * j) == c)) by {
                        if c != 0 && u32_at(p0, 4 * i) == c {
                            assert(ind_start <= i < i + 1);
                        }
                        if c != 0 && exists|j: int| ind_start <= j < i + 1 && #[trigger] u32_at(p0, 4 * j) == c {
                            let j = choose|j: int| ind_start <= j < i + 1 && #[trigger] u32_at(p0, 4 * j) == c;
                            if j < i {
                                assert(exists|j: int| ind_start <= j < i && #[trigger] u32_at(p0, 4 * j) == c);
                            }
                        }
                    }
                }
                i = i + 1;
            }
            let ghost s2 = self.disk;
            if modified {
                self.disk.write_block(ind, &ind_buf);
                proof {
                    BlockStore::lemma_changes_listed_trans(s0.store, s2.store, self.disk.store);
                }
            }
            let ghost s3 = self.disk;
            if start_idx <= DIRECT_BLOCKS {
                self.disk.free_block(ind);
                inode.indirect_block = 0;
                proof {
                    BlockStore::lemma_changes_listed_trans(s0.store, s3.store, self.disk.store);
                }
            }
            proof {
                if ind != 1 && ind != BACKUP_SUPERBLOCK {
                    assert(p0 == s0.block(ind));
                    assert forall|c: int| 0 <= c < TOTAL_BLOCKS implies #[trigger] bitmap_bit(self.disk.block(1), c) == (
                    bitmap_bit(s0.block(1), c) && !f0.frees(d0, start_idx as int, c)) by {
                        assert(s3.block(1) == s2.block(1));
                        if exists|j: int|
                            ind_start <= j < 510 && #[trigger] u32_at(s0.block(d0.indirect_block), 4 * j) == c {
                            let j = choose|j: int|
                                ind_start <= j < 510 && #[trigger] u32_at(s0.block(d0.indirect_block), 4 * j) == c;
                            assert(u32_at(p0, 4 * j) == c);
                        }
                        if exists|j: int| ind_start <= j < 510 && #[trigger] u32_at(p0, 4 * j) == c {
                            let j = choose|j: int| ind_start <= j < 510 && #[trigger] u32_at(p0, 4 * j) == c;
                            assert(u32_at(s0.block(d0.indirect_block), 4 * j) == c);
                        }
                    }
                    if 12 < start_idx < 522 {
                        assert(indirect_ptrs(self.disk.block(ind)) =~= Seq::new(
                            510,
                            |j: int|
                                if j >= start_idx - 12 {
                                    0u32
                                } else {
                                    indirect_ptrs(s0.block(ind))[j]
                                },
                        ));
                        assert(indirect_sums(self.disk.block(ind)) =~= indirect_sums(s0.block(ind)));
                    }
                }
            }
        } else {
            proof {
                assert forall|c: int| 0 <= c < TOTAL_BLOCKS implies #[trigger] bitmap_bit(self.disk.block(1), c) == (
                bitmap_bit(s0.block(1), c) && !f0.frees(d0, start_idx as int, c)) by {}
            }
        }
    }

    /// The superblock, the bitmap, the inode table and the backup
    /// superblock are in use.
    pub open spec fn reserved_in_use(self) -> bool {
        forall|c: int| (0 <= c < 34 || c == BACKUP_SUPERBLOCK) ==> #[trigger] bitmap_bit(self.disk.block(1), c)
    }

    /// The direct blocks of `d` are distinct data blocks in use.
    pub open spec fn direct_blocks_sound(self, d: DiskInode) -> bool {
        &&& forall|i: int|
            0 <= i < 12 && #[trigger] d.direct_blocks[i] != 0 ==> 34 <= d.direct_blocks[i] < BACKUP_SUPERBLOCK
                && bitmap_bit(self.disk.block(1), d.direct_blocks[i] as int)
        &&& forall|i: int, j: int|
            0 <= i < 12 && 0 <= j < 12 && i != j && #[trigger] d.direct_blocks[i] != 0 ==> d.direct_blocks[i]
                != #[trigger] d.direct_blocks[j]
    }

    /// A write to inode `ino` up to position `end` stays within the direct
    /// blocks of a consistent volume: the inode is in the table and records
    /// its own number, the reserved blocks and the file's blocks are in
    /// use, and the file's blocks are distinct.
    pub open spec fn write_sound(self, ino: u64, end: int) -> bool {
        &&& self.has_inode(ino)
        &&& ino < 480
        &&& self.inode(ino).ino == ino
        &&& self.reserved_in_use()
        &&& self.direct_blocks_sound(self.inode(ino))
        &&& end <= 12 * PAYLOAD_SIZE
    }

    /// A write to file `d` keeps the superblock and the bitmap safe: blocks 0
    /// and 1 are marked in use; no direct block of `d` is block 1 or its
    /// indirect block; its indirect block, if any, is marked in use, is
    /// neither block 1 nor the backup superblock, and lists neither block 1
    /// nor itself.
    pub open spec fn write_safe(self, d: DiskInode) -> bool {
        let bm = self.disk.block(1);
        &&& bitmap_bit(bm, 0)
        &&& bitmap_bit(bm, 1)
        &&& forall|i: int| 0 <= i < 12 ==> #[trigger] d.direct_blocks[i] != 1 && (d.indirect_block != 0 ==> d.direct_blocks[i] != d.indirect_block)
        &&& d.indirect_block != 0 ==> {
            &&& d.indirect_block != 1
            &&& d.indirect_block != BACKUP_SUPERBLOCK
            &&& d.indirect_block < TOTAL_BLOCKS
            &&& bitmap_bit(bm, d.indirect_block as int)
            &&& forall|j: int|
                0 <= j < 510 ==> #[trigger] u32_at(self.disk.block(d.indirect_block), 4 * j) != 1 && u32_at(
                    self.disk.block(d.indirect_block),
                    4 * j,
                ) != d.indirect_block
        }
    }

    /// Block `idx` of file `d` holds its part of `data` written at `offset`
    /// and the checksum recorded for it is that of its payload.
    pub open spec fn chunk_held(self, d: DiskInode, offset: int, data: Seq<u8>, idx: int) -> bool {
        let lo = if offset > idx * PAYLOAD_SIZE {
            offset
        } else {
            idx * PAYLOAD_SIZE
        };
        let hi = if offset + data.len() < (idx + 1) * PAYLOAD_SIZE {
            offset + data.len()
        } else {
            (idx + 1) * PAYLOAD_SIZE
        };
        let b = d.direct_blocks[idx];
        &&& b != 0
        &&& d.direct_checksums[idx] == crc32_of(self.disk.block(b))
        &&& self.disk.block(b).subrange(lo - idx * PAYLOAD_SIZE, hi - idx * PAYLOAD_SIZE) == data.subrange(
            lo - offset,
            hi - offset,
        )
    }

    /// A file whose direct blocks hold each its part of `data`, written at
    /// `offset`, reads back `data` from any block boundary within it (or
    /// from `offset`) on.
    proof fn lemma_read_written(self, d: DiskInode, offset: int, data: Seq<u8>, cur: int)
        requires
            0 <= offset <= cur <= offset + data.len(),
            offset + data.len() <= 12 * PAYLOAD_SIZE,
            cur == offset || cur == offset + data.len() || cur % PAYLOAD_SIZE as int == 0,
            forall|idx: int|
                offset / PAYLOAD_SIZE as int <= idx && idx * PAYLOAD_SIZE < offset + data.len() ==> #[trigger] self.chunk_held(
                    d,
                    offset,
                    data,
                    idx,
                ),
        ensures
            self.read_from(d, offset + data.len(), cur) == Ok::<Seq<u8>, Errno>(data.subrange(cur - offset, data.len() as int)),
        decreases offset + data.len() - cur,
    {
        let end = offset + data.len();
        if cur < end {
            let idx = cur / PAYLOAD_SIZE as int;
            let off = cur % PAYLOAD_SIZE as int;
            assert(idx * PAYLOAD_SIZE + off == cur);
            assert(offset / PAYLOAD_SIZE as int <= idx);
            assert(idx < 12);
            assert(self.chunk_held(d, offset, data, idx));
            let n = if PAYLOAD_SIZE - off < end - cur {
                PAYLOAD_SIZE - off
            } else {
                end - cur
            };
            let next = cur + n;
            assert(next == end || next == (idx + 1) * PAYLOAD_SIZE);
            self.lemma_read_written(d, offset, data, next);
            let b = d.direct_blocks[idx];
            assert(self.disk.block(b).subrange(off, off + n) == data.subrange(cur - offset, next - offset));
            assert(data.subrange(cur - offset, next - offset) + data.subrange(next - offset, data.len() as int)
                =~= data.subrange(cur - offset, data.len() as int));
        } else {
            assert(data.subrange(cur - offset, data.len() as int) =~= Seq::<u8>::empty());
        }
    }

    /// Writes `data` at `offset` into inode `ino`, copy-on-write: each block
    /// touched is written whole to a newly allocated block, recorded with
    /// its checksum in place of the old one, and the old one is freed. Then
    /// the size grows to cover the write and the modification time is set.
    #[verifier::rlimit(100)]
    #[verifier::spinoff_prover]
    pub fn write(&mut self, ino: u64, offset: u64, data: &[u8]) -> (r: Result<u32, Errno>)
        requires
            old(self).has_inode(ino) ==> {
                &&& offset + data@.len() >= 1
                &&& offset + data@.len() <= u64::MAX
            },
        ensures
            old(self).disk.store.changes_listed(final(self).disk.store),
            !old(self).has_inode(ino) ==> r == Err::<u32, Errno>(Errno::NoEntry) && *final(self) == *old(self),
            r matches Ok(n) ==> old(self).has_inode(ino) && n == data@.len() as u32,
            r matches Ok(n) && 0 < old(self).inode(ino).ino < 1024 ==> {
                let d = old(self).inode(ino);
                let e = final(self).inode(d.ino);
                &&& final(self).has_inode(d.ino)
                &&& e.size == (if offset + data@.len() > d.size {
                    (offset + data@.len()) as u64
                } else {
                    d.size
                })
                &&& e == (DiskInode {
                    size: e.size,
                    mtime: e.mtime,
                    direct_blocks: e.direct_blocks,
                    direct_checksums: e.direct_checksums,
                    ..d
                })
            },
            r matches Err(e) ==> (e == Errno::NoEntry && !old(self).has_inode(ino)) || (e == Errno::FileTooBig && (
            offset + data@.len() - 1) / PAYLOAD_SIZE as int >= 522) || e == Errno::NoSpace,
            old(self).has_inode(ino) && old(self).write_safe(old(self).inode(ino)) && r == Err::<u32, Errno>(
                Errno::NoSpace,
            ) ==> forall|c: int| 0 <= c < TOTAL_BLOCKS ==> #[trigger] bitmap_bit(final(self).disk.block(1), c),
            old(self).write_sound(ino, offset + data@.len()) && r is Err ==> r == Err::<u32, Errno>(Errno::NoSpace)
                && forall|c: int| 0 <= c < TOTAL_BLOCKS ==> #[trigger] bitmap_bit(final(self).disk.block(1), c),
            r is Ok && old(self).write_sound(ino, offset + data@.len()) ==> final(self).read_result(
                ino,
                offset,
                data@.len() as u32,
            ) == Ok::<Seq<u8>, Errno>(data@),
            r is Ok && old(self).write_reaches(ino, offset + data@.len()) ==> {
                let d = old(self).inode(ino);
                let e = final(self).inode(ino);
                &&& final(self).has_inode(ino)
                &&& data@.len() <= 522 * PAYLOAD_SIZE
                &&& final(self).read_result(ino, offset, data@.len() as u32) == Ok::<Seq<u8>, Errno>(data@)
                &&& final(self).file_sound(e)
                &&& forall|k: int|
                    data@.len() > 0 && offset as int / PAYLOAD_SIZE as int <= k && k * PAYLOAD_SIZE < offset + data@.len()
                        ==> #[trigger] final(self).block_written(e, *old(self), d, offset as int, data@, k)
                &&& forall|k: int|
                    0 <= k < 522 && !(data@.len() > 0 && offset as int / PAYLOAD_SIZE as int <= k && k * PAYLOAD_SIZE
                        < offset + data@.len())
                        ==> #[trigger] final(self).mapped(e, k) == old(self).mapped(d, k) && final(self).block_content(
                        e,
                        k,
                    ) == old(self).block_content(d, k)
                &&& forall|c: int|
                    0 <= c < TOTAL_BLOCKS ==> #[trigger] bitmap_bit(final(self).disk.block(1), c) == ((bitmap_bit(
                        old(self).disk.block(1),
                        c,
                    ) && !(exists|k: int|
                        data@.len() > 0 && offset as int / PAYLOAD_SIZE as int <= k && k * PAYLOAD_SIZE < offset
                            + data@.len() && c != 0 && #[trigger] old(self).block_at(d, k) == c)) || (exists|k: int|
                        data@.len() > 0 && offset as int / PAYLOAD_SIZE as int <= k && k * PAYLOAD_SIZE < offset
                            + data@.len() && #[trigger] final(self).block_at(e, k) == c))
                &&& forall|p: int|
                    0 <= p < 522 * PAYLOAD_SIZE ==> #[trigger] final(self).file_byte(e, p) == if offset <= p < offset
                        + data@.len() {
                        data@[p - offset]
                    } else {
                        old(self).file_byte(d, p)
                    }
                &&& forall|at: u64, size: u32|
                    #[trigger] final(self).read_result(ino, at, size) is Ok ==> {
                        let s = final(self).read_result(ino, at, size)->Ok_0;
                        forall|i: int|
                            0 <= i < s.len() ==> #[trigger] s[i] == if offset <= at + i < offset + data@.len() {
                                data@[at + i - offset]
                            } else {
                                old(self).file_byte(d, at + i)
                            }
                    }
            },
    {
        let mut inode = match self.disk.read_inode(ino) {
            Some(inode) => inode,
            None => return Err(Errno::NoEntry),
        };
        let ghost d0 = inode;
        let ghost s0 = self.disk.store;
        let end = offset + data.len() as u64;
        let ghost sound = old(self).write_sound(ino, end as int);
        let ghost wsafe = old(self).write_safe(d0);
        let ghost reach = old(self).write_reaches(ino, end as int);
        proof {
            reveal(LionFS::bitmap_replaced);
        }
        let mut data_offset: usize = 0;
        let mut current_fs_offset = offset;
        while current_fs_offset < end
            invariant
                sound == old(self).write_sound(ino, end as int),
                wsafe == old(self).write_safe(d0),
                wsafe ==> self.write_safe(inode),
                reach == old(self).write_reaches(ino, end as int),
                reach ==> {
                    &&& ino < 480
                    &&& d0.ino == ino
                    &&& self.bitmap_replaced(*old(self), d0, inode, offset as int, data@, current_fs_offset as int)
                    &&& offset < current_fs_offset ==> current_fs_offset <= 522 * PAYLOAD_SIZE
                    &&& end > 12 * PAYLOAD_SIZE ==> d0.indirect_block != 0
                    &&& self.file_sound(inode)
                    &&& current_fs_offset == offset || current_fs_offset == end || current_fs_offset % PAYLOAD_SIZE as u64
                        == 0
                    &&& forall|k: int|
                        0 <= k < 522 && !(offset < current_fs_offset && offset as int / PAYLOAD_SIZE as int <= k && k
                            * PAYLOAD_SIZE < current_fs_offset) ==> #[trigger] self.mapped(inode, k) == old(self).mapped(
                            d0,
                            k,
                        ) && self.block_content(inode, k) == old(self).block_content(d0, k)
                    &&& forall|k: int|
                        offset < current_fs_offset && offset as int / PAYLOAD_SIZE as int <= k && k * PAYLOAD_SIZE
                            < current_fs_offset ==> #[trigger] self.block_written(
                            inode,
                            *old(self),
                            d0,
                            offset as int,
                            data@,
                            k,
                        )
                },
                sound ==> {
                    &&& ino < 480
                    &&& d0.ino == ino
                    &&& end <= 12 * PAYLOAD_SIZE
                    &&& self.reserved_in_use()
                    &&& self.direct_blocks_sound(inode)
                    &&& current_fs_offset == offset || current_fs_offset == end || current_fs_offset % PAYLOAD_SIZE as u64
                        == 0
                    &&& forall|k: int|
                        offset as int / PAYLOAD_SIZE as int <= k && offset < current_fs_offset && k * PAYLOAD_SIZE
                            < current_fs_offset && (current_fs_offset == end || (k + 1) * PAYLOAD_SIZE <= current_fs_offset)
                            ==> #[trigger] self.chunk_held(
                            inode,
                            offset as int,
                            data@,
                            k,
                        )
                },
                offset <= current_fs_offset <= end,
                end == offset + data@.len(),
                data_offset == current_fs_offset - offset,
                old(self).has_inode(ino),
                old(self).disk.store == s0,
                d0 == old(self).inode(ino),
                d0.kind != 0,
                inode == (DiskInode {
                    direct_blocks: inode.direct_blocks,
                    direct_checksums: inode.direct_checksums,
                    ..d0
                }),
                s0.changes_listed(self.disk.store),
            decreases end - current_fs_offset,
        {
            let block_idx = current_fs_offset / PAYLOAD_SIZE as u64;
            proof {
                if sound {
                    assert(block_idx < 12) by (nonlinear_arith)
                        requires
                            block_idx == current_fs_offset / PAYLOAD_SIZE as u64,
                            current_fs_offset < 12 * PAYLOAD_SIZE,
                    ;
                }
            }
            if block_idx >= 522 {
                return Err(Errno::FileTooBig);
            }
            let idx = block_idx as usize;
            let ghost f_start = *self;
            let ghost i_start = inode;
            match self.file_block(&inode, idx) {
                Ok((old_block, _)) => {
                    let ghost st = self.disk.store;
                    let block_offset = (current_fs_offset % PAYLOAD_SIZE as u64) as usize;
                    let room = PAYLOAD_SIZE - block_offset;
                    let left = data.len() - data_offset;
                    let chunk_size: usize = if room < left { room } else { left };
                    let mut buf: Vec<u8> = if chunk_size < PAYLOAD_SIZE && old_block != 0 {
                        self.disk.read_block(old_block)
                    } else {
                        vec![0u8; PAYLOAD_SIZE]
                    };
                    let chunk = vstd::slice::slice_subrange(data, data_offset, data_offset + chunk_size);
                    let ghost base_view = buf@;
                    proof {
                        if !(chunk_size < PAYLOAD_SIZE && old_block != 0) {
                            assert(base_view =~= zero_payload());
                        }
                    }
                    set_bytes(&mut buf, block_offset, chunk);
                    assert(buf@.len() == PAYLOAD_SIZE);
                    let ghost buf_view = buf@;
                    let ghost f_alloc = *self;
                    let new_block = match self.disk.allocate_block() {
                        Some(b) => b,
                        None => 0,
                    };
                    if new_block == 0 {
                        proof {
                            BlockStore::lemma_changes_listed_trans(s0, st, self.disk.store);
                            if sound || wsafe {
                                assert(bitmap_bit(f_alloc.disk.block(1), 0));
                            }
                        }
                        return Err(Errno::NoSpace);
                    }
                    let ghost s1 = self.disk.store;
                    let ghost fs1 = *self;
                    let ghost ind = inode.indirect_block;
                    proof {
                        if wsafe {
                            assert(new_block != 1) by {
                                assert(bitmap_bit(f_alloc.disk.block(1), 1));
                            }
                            assert(ind != 0 ==> new_block != ind) by {
                                if ind != 0 {
                                    assert(bitmap_bit(f_alloc.disk.block(1), ind as int));
                                }
                            }
                            if ind != 0 {
                                assert(fs1.disk.block(ind) == f_alloc.disk.block(ind));
                            }
                            assert(fs1.write_safe(inode));
                        }
                    }
                    self.disk.write_block(new_block, &buf);
                    let ghost s2 = self.disk.store;
                    let ghost fs2 = *self;
                    proof {
                        if wsafe {
                            assert(fs2.disk.block(1) == fs1.disk.block(1));
                            if ind != 0 {
                                assert(fs2.disk.block(ind) == fs1.disk.block(ind));
                            }
                            assert(fs2.write_safe(inode));
                        }
                    }
                    let ghost i2 = inode;
                    self.set_file_block_id(&mut inode, idx, new_block);
                    let ghost s3 = self.disk.store;
                    let ghost fs3 = *self;
                    let ghost i3 = inode;
                    proof {
                        if wsafe {
                            if idx >= 12 && ind != 0 {
                                let p = fs2.disk.block(ind);
                                fs2.disk.store.lemma_payload_len(ind);
                                assert forall|j: int| 0 <= j < 510 implies #[trigger] u32_at(fs3.disk.block(ind), 4 * j) != 1 && u32_at(
                                    fs3.disk.block(ind),
                                    4 * j,
                                ) != ind by {
                                    crate::lionfs::lemma_indirect_set_get(p, idx - 12, new_block, j);
                                }
                                assert(fs3.disk.block(1) == fs2.disk.block(1));
                            }
                            assert(fs3.write_safe(inode));
                        }
                    }
                    let checksum = payload_checksum(&buf);
                    self.set_file_block_checksum(&mut inode, idx, checksum);
                    let ghost s4 = self.disk.store;
                    let ghost f_free = *self;
                    proof {
                        if wsafe {
                            if idx >= 12 && ind != 0 {
                                let p = fs3.disk.block(ind);
                                fs3.disk.store.lemma_payload_len(ind);
                                assert forall|j: int| 0 <= j < 510 implies #[trigger] u32_at(f_free.disk.block(ind), 4 * j) == u32_at(
                                    p,
                                    4 * j,
                                ) by {
                                    crate::mount_dir::lemma_sum_set_keeps_ptr(p, idx - 12, checksum, j);
                                }
                                assert(f_free.disk.block(1) == fs3.disk.block(1));
                            }
                            assert(f_free.write_safe(inode));
                        }
                    }
                    if old_block != 0 {
                        self.disk.free_block(old_block);
                    }
                    proof {
                        if wsafe {
                            assert(old_block != 1 && (ind != 0 ==> old_block != ind)) by {
                                if idx >= 12 && ind != 0 && old_block != 0 {
                                    assert(u32_at(f_start.disk.block(ind), 4 * (idx - 12)) == old_block);
                                }
                            }
                            if ind != 0 {
                                assert(self.disk.block(ind) == f_free.disk.block(ind));
                            }
                            assert(self.write_safe(inode));
                        }
                    }
                    proof {
                        BlockStore::lemma_changes_listed_trans(s0, st, s1);
                        BlockStore::lemma_changes_listed_trans(s0, s1, s2);
                        BlockStore::lemma_changes_listed_trans(s0, s2, s3);
                        BlockStore::lemma_changes_listed_trans(s0, s3, s4);
                        BlockStore::lemma_changes_listed_trans(s0, s4, self.disk.store);
                    }
                    data_offset = data_offset + chunk_size;
                    current_fs_offset = current_fs_offset + chunk_size as u64;
                    proof {
                        if reach {
                            self.lemma_write_step(
                                *old(self),
                                f_start,
                                fs1,
                                fs2,
                                fs3,
                                f_free,
                                d0,
                                i_start,
                                i3,
                                inode,
                                offset as int,
                                data@,
                                (current_fs_offset - chunk_size) as int,
                                idx as int,
                                new_block,
                                buf_view,
                                block_offset as int,
                                chunk_size as int,
                                base_view,
                            );
                        }
                        if sound {
                            let cur = (current_fs_offset - chunk_size) as int;
                            let ib = i_start.direct_blocks[idx as int];
                            let b = new_block;
                            assert(old_block == ib);
                            assert(f_alloc.disk == f_start.disk);
                            assert(!bitmap_bit(f_start.disk.block(1), b as int));
                            assert(b >= 34 && b != BACKUP_SUPERBLOCK) by {
                                if b < 34 {
                                    assert(bitmap_bit(f_start.disk.block(1), b as int));
                                }
                            }
                            assert forall|j: int| 0 <= j < 12 && #[trigger] i_start.direct_blocks[j] != 0 implies i_start.direct_blocks[j]
                                != b by {
                                assert(bitmap_bit(f_start.disk.block(1), i_start.direct_blocks[j] as int));
                            }
                            assert(self.reserved_in_use()) by {
                                assert forall|c: int| (0 <= c < 34 || c == BACKUP_SUPERBLOCK) implies #[trigger] bitmap_bit(
                                    self.disk.block(1),
                                    c,
                                ) by {
                                    assert(bitmap_bit(f_start.disk.block(1), c));
                                    assert(bitmap_bit(f_free.disk.block(1), c));
                                }
                            }
                            assert forall|j: int| 0 <= j < 12 && #[trigger] inode.direct_blocks[j] != 0 implies bitmap_bit(
                                self.disk.block(1),
                                inode.direct_blocks[j] as int,
                            ) by {
                                if j == idx {
                                    assert(bitmap_bit(f_free.disk.block(1), b as int));
                                } else {
                                    assert(inode.direct_blocks[j] == i_start.direct_blocks[j]);
                                    assert(bitmap_bit(f_start.disk.block(1), i_start.direct_blocks[j] as int));
                                    assert(bitmap_bit(f_free.disk.block(1), i_start.direct_blocks[j] as int));
                                }
                            }
                            assert(self.direct_blocks_sound(inode));
                            assert(self.disk.block(b) == buf_view);
                            assert(buf_view.subrange(block_offset as int, block_offset + chunk_size) =~= data@.subrange(
                                cur - offset,
                                cur - offset + chunk_size,
                            ));
                            assert(self.chunk_held(inode, offset as int, data@, idx as int));
                            assert forall|k: int|
                                offset as int / PAYLOAD_SIZE as int <= k && offset < current_fs_offset && k * PAYLOAD_SIZE
                                    < current_fs_offset && (current_fs_offset == end || (k + 1) * PAYLOAD_SIZE
                                    <= current_fs_offset) implies #[trigger] self.chunk_held(
                                inode,
                                offset as int,
                                data@,
                                k,
                            ) by {
                                if k != idx {
                                    assert(k < idx);
                                    assert(f_start.chunk_held(i_start, offset as int, data@, k));
                                    let bk = i_start.direct_blocks[k];
                                    assert(bk != b);
                                    assert(self.disk.block(bk) == f_start.disk.block(bk));
                                }
                            }
                        }
                    }
                },
                Err(e) => {
                    return Err(e);
                },
            }
        }
        let ghost i_exit = inode;
        if offset + data.len() as u64 > inode.size {
            inode.size = offset + data.len() as u64;
        }
        inode.mtime = unix_now_secs();
        let ghost s5 = self.disk.store;
        let ghost f5 = *self;
        self.disk.write_inode(&inode);
        proof {
            BlockStore::lemma_changes_listed_trans(s0, s5, self.disk.store);
            if reach {
                assert(inode_block(ino) < 34);
                assert forall|x: u32| x >= 34 implies #[trigger] self.disk.block(x) == f5.disk.block(x) by {}
                self.lemma_file_frame(f5, i_exit, inode);
                assert(self.has_inode(ino) && self.inode(ino) == inode);
                assert forall|k: int|
                    data@.len() > 0 && offset as int / PAYLOAD_SIZE as int <= k && k * PAYLOAD_SIZE < end implies #[trigger] self.block_written(
                    inode,
                    *old(self),
                    d0,
                    offset as int,
                    data@,
                    k,
                ) by {
                    assert(f5.block_written(i_exit, *old(self), d0, offset as int, data@, k));
                    assert(k < 522);
                    assert(self.mapped(inode, k) == f5.mapped(i_exit, k));
                    let b = f5.block_at(i_exit, k);
                    assert(self.block_at(inode, k) == b);
                    assert(b >= 34);
                    assert(self.disk.block(b) == f5.disk.block(b));
                }
                assert forall|k: int|
                    0 <= k < 522 && !(data@.len() > 0 && offset as int / PAYLOAD_SIZE as int <= k && k * PAYLOAD_SIZE
                        < end) implies #[trigger] self.mapped(inode, k) == old(self).mapped(d0, k)
                    && self.block_content(inode, k) == old(self).block_content(d0, k) by {
                    assert(self.mapped(inode, k) == f5.mapped(i_exit, k));
                }
                self.lemma_written_bytes(*old(self), d0, inode, offset as int, data@);
                self.lemma_read_back(inode, *old(self), d0, offset as int, data@, offset as int);
                assert(data@.subrange(0, data@.len() as int) =~= data@);
                if data@.len() == 0 {
                    assert(data@ =~= Seq::<u8>::empty());
                }
                reveal(LionFS::bitmap_replaced);
                assert(self.disk.block(1) == f5.disk.block(1));
                assert(data@.len() > 0 <==> offset < current_fs_offset);
                assert forall|c: int| 0 <= c < TOTAL_BLOCKS implies #[trigger] bitmap_bit(self.disk.block(1), c) == ((
                bitmap_bit(old(self).disk.block(1), c) && !(exists|k: int|
                    data@.len() > 0 && offset as int / PAYLOAD_SIZE as int <= k && k * PAYLOAD_SIZE < offset
                        + data@.len() && c != 0 && #[trigger] old(self).block_at(d0, k) == c)) || (exists|k: int|
                    data@.len() > 0 && offset as int / PAYLOAD_SIZE as int <= k && k * PAYLOAD_SIZE < offset
                        + data@.len() && #[trigger] self.block_at(inode, k) == c)) by {
                    assert(bitmap_bit(f5.disk.block(1), c) == bitmap_bit(self.disk.block(1), c));
                    if exists|k: int|
                        offset < current_fs_offset && offset as int / PAYLOAD_SIZE as int <= k && k * PAYLOAD_SIZE
                            < current_fs_offset && #[trigger] f5.block_at(i_exit, k) == c {
                        let k = choose|k: int|
                            offset < current_fs_offset && offset as int / PAYLOAD_SIZE as int <= k && k * PAYLOAD_SIZE
                                < current_fs_offset && #[trigger] f5.block_at(i_exit, k) == c;
                        assert(self.block_at(inode, k) == c);
                    }
                    if exists|k: int|
                        data@.len() > 0 && offset as int / PAYLOAD_SIZE as int <= k && k * PAYLOAD_SIZE < offset
                            + data@.len() && #[trigger] self.block_at(inode, k) == c {
                        let k = choose|k: int|
                            data@.len() > 0 && offset as int / PAYLOAD_SIZE as int <= k && k * PAYLOAD_SIZE < offset
                                + data@.len() && #[trigger] self.block_at(inode, k) == c;
                        assert(f5.block_at(i_exit, k) == c);
                    }
                }
                assert forall|at: u64, size: u32| #[trigger] self.read_result(ino, at, size) is Ok implies {
                    let s = self.read_result(ino, at, size)->Ok_0;
                    forall|i: int|
                        0 <= i < s.len() ==> #[trigger] s[i] == if offset <= at + i < offset + data@.len() {
                            data@[at + i - offset]
                        } else {
                            old(self).file_byte(d0, at + i)
                        }
                } by {
                    if at < inode.size {
                        let n = if at + size > inode.size {
                            inode.size - at
                        } else {
                            size as int
                        };
                        self.lemma_read_bytes(inode, at + n, at as int);
                    }
                }
            }
            if sound && data@.len() == 0 {
                assert(data@ =~= Seq::<u8>::empty());
            }
            if sound && data@.len() > 0 {
                assert forall|k: int|
                    offset as int / PAYLOAD_SIZE as int <= k && k * PAYLOAD_SIZE < end implies #[trigger] self.chunk_held(
                    inode,
                    offset as int,
                    data@,
                    k,
                ) by {
                    assert(f5.chunk_held(i_exit, offset as int, data@, k));
                    assert(inode.direct_blocks == i_exit.direct_blocks);
                    assert(inode.direct_checksums == i_exit.direct_checksums);
                    assert(k < 12);
                    let b = inode.direct_blocks[k];
                    assert(b != 0);
                    assert(34 <= b);
                    assert(self.disk.block(b) == f5.disk.block(b));
                }
                assert(self.inode(ino) == inode);
                self.lemma_read_written(inode, offset as int, data@, offset as int);
                assert(data@.subrange(0, data@.len() as int) =~= data@);
            }
        }
        Ok(data.len() as u32)
    }

    /// Directory `d` is laid out as the filesystem lays out directories, on
    /// a consistent volume: its record lies in the inode table, it has no
    /// indirect block, and its blocks are distinct data blocks in use, as
    /// are the reserved blocks.
    pub open spec fn dir_sound(self, d: DiskInode) -> bool {
        &&& d.ino < 480
        &&& d.indirect_block == 0
        &&& self.reserved_in_use()
        &&& self.direct_blocks_sound(d)
    }

    /// Where a new entry of directory `d` goes, scanning its direct blocks
    /// from the `k`-th: `(i, s)` for free slot `s` of direct block `i`,
    /// `(i, -1)` for a new block at the first empty direct index `i`, and
    /// `(12, -1)` when there is neither.
    pub open spec fn add_place(self, d: DiskInode, k: int) -> (int, int)
        decreases 12 - k,
    {
        if k < 0 || k >= 12 {
            (12, -1)
        } else if d.direct_blocks[k] == 0 {
            (k, -1)
        } else {
            match free_slot_from(self.disk.block(d.direct_blocks[k]), 0) {
                Some(s) => (k, s),
                None => self.add_place(d, k + 1),
            }
        }
    }

    /// Where `add_place` puts an entry: nowhere (`(12, -1)`), a free slot
    /// of a direct block, or the empty direct index of a new block.
    proof fn lemma_add_place(self, d: DiskInode, k: int)
        requires
            0 <= k,
        ensures
            ({
                let p = self.add_place(d, k);
                ||| p == (12int, -1int)
                ||| k <= p.0 < 12 && p.1 == -1 && d.direct_blocks[p.0] == 0
                ||| k <= p.0 < 12 && 0 <= p.1 < 63 && d.direct_blocks[p.0] != 0
            }),
        decreases 12 - k,
    {
        if k < 12 && d.direct_blocks[k] != 0 {
            match free_slot_from(self.disk.block(d.direct_blocks[k]), 0) {
                Some(s) => {
                    crate::mount_dir::lemma_free_slot_bound(self.disk.block(d.direct_blocks[k]), 0);
                },
                None => {
                    self.lemma_add_place(d, k + 1);
                },
            }
        }
    }

    /// A new entry named `name` fits in directory `d`: the name is at most
    /// 56 bytes, and the directory has a free slot in one of its blocks, or
    /// an empty direct index while the volume has a free block.
    pub open spec fn entry_fits(self, d: DiskInode, name: Seq<u8>) -> bool {
        let place = self.add_place(d, 0);
        &&& name.len() <= 56
        &&& place.0 < 12
        &&& place.1 >= 0 || !self.disk.blocks_full()
    }

    /// The bitmap shows at least two distinct blocks free.
    pub open spec fn two_blocks_free(self) -> bool {
        exists|c1: int, c2: int|
            0 <= c1 < TOTAL_BLOCKS && 0 <= c2 < TOTAL_BLOCKS && c1 != c2 && !#[trigger] bitmap_bit(self.disk.block(1), c1)
                && !#[trigger] bitmap_bit(self.disk.block(1), c2)
    }

    /// A new directory named `name` fits in directory `d`: the name is at
    /// most 56 bytes, the directory has a free slot or an empty direct
    /// index, and the volume has a free block for the new directory and a
    /// second one when the entry needs a new block of `d`.
    pub open spec fn mkdir_fits(self, d: DiskInode, name: Seq<u8>) -> bool {
        let place = self.add_place(d, 0);
        &&& name.len() <= 56
        &&& place.0 < 12
        &&& if place.1 >= 0 {
            !self.disk.blocks_full()
        } else {
            self.two_blocks_free()
        }
    }

    /// Every slot of a block of directory `d` that is free in `self` is
    /// still free in `other`.
    pub open spec fn slots_kept_free(self, other: LionFS, d: DiskInode) -> bool {
        forall|i: int, t: int|
            0 <= i < 12 && d.direct_blocks[i] != 0 && 0 <= t < 63 && slot_ino(self.disk.block(d.direct_blocks[i]), t)
                == 0 ==> #[trigger] slot_ino(other.disk.block(d.direct_blocks[i]), t) == 0
    }

    /// Freeing slots never takes away the place of a new entry: where
    /// `self` has a place, `other` has one, a free slot where `self` has one.
    proof fn lemma_add_place_kept(self, other: LionFS, d: DiskInode, k: int)
        requires
            0 <= k,
            self.slots_kept_free(other, d),
        ensures
            self.add_place(d, k).0 < 12 ==> other.add_place(d, k).0 < 12,
            self.add_place(d, k).1 >= 0 ==> other.add_place(d, k).1 >= 0,
        decreases 12 - k,
    {
        if k < 12 && d.direct_blocks[k] != 0 {
            let p = self.disk.block(d.direct_blocks[k]);
            let q = other.disk.block(d.direct_blocks[k]);
            assert forall|t: int| 0 <= t < 63 && slot_ino(p, t) == 0 implies #[trigger] slot_ino(q, t) == 0 by {
                assert(slot_ino(other.disk.block(d.direct_blocks[k]), t) == 0);
            }
            crate::mount_dir::lemma_free_slot_kept(p, q, 0);
            crate::mount_dir::lemma_free_slot_bound(p, 0);
            crate::mount_dir::lemma_free_slot_bound(q, 0);
            self.lemma_add_place_kept(other, d, k + 1);
        }
    }

    /// Where an entry goes depends only on the blocks of the directory.
    proof fn lemma_add_place_frame(self, other: LionFS, d: DiskInode, k: int)
        requires
            forall|i: int|
                0 <= i < 12 && #[trigger] d.direct_blocks[i] != 0 ==> other.disk.block(d.direct_blocks[i]) == self.disk.block(
                    d.direct_blocks[i],
                ),
        ensures
            other.add_place(d, k) == self.add_place(d, k),
        decreases 12 - k,
    {
        if 0 <= k < 12 && d.direct_blocks[k] != 0 {
            self.lemma_add_place_frame(other, d, k + 1);
        }
    }

    /// Adds an entry for inode `ino` named `name` to directory `inode`: in
    /// the first free slot of its direct blocks, else in a newly allocated
    /// block at the first empty direct index (the directory grows by one
    /// block). The directory's inode is then stored.
    pub fn add_dir_entry(&mut self, inode: &mut DiskInode, name: &str, ino: u64) -> (r: Result<(), Errno>)
        requires
            name.spec_bytes().len() <= 56 && old(self).add_place(*old(inode), 0).0 < 12 && old(self).add_place(
                *old(inode),
                0,
            ).1 == -1 ==> old(inode).size + PAYLOAD_SIZE <= u64::MAX,
        ensures
            old(self).disk.store.changes_listed(final(self).disk.store),
            r matches Err(e) ==> e == Errno::NameTooLong || e == Errno::NoSpace,
            *final(inode) == (DiskInode {
                direct_blocks: final(inode).direct_blocks,
                size: final(inode).size,
                ..*old(inode)
            }),
            r is Ok && ino != 0 && old(self).dir_sound(*old(inode)) ==> {
                &&& exists|j: int|
                    0 <= j <= old(self).dir_entries(*old(inode)).len() && final(self).dir_entries(*final(inode))
                        == old(self).dir_entries(*old(inode)).insert(j, (ino, name_field(name.spec_bytes())))
                &&& forall|i: int|
                    0 <= i < 12 && #[trigger] final(inode).direct_blocks[i] != 0 ==> 34 <= final(inode).direct_blocks[i]
                &&& forall|x: u64|
                    x < 480 && x != old(inode).ino ==> #[trigger] final(self).disk.inode_bytes(x)
                        == old(self).disk.inode_bytes(x)
            },
            ({
                let place = old(self).add_place(*old(inode), 0);
                let entry = entry_bytes(ino, name.spec_bytes());
                let ib = inode_block(old(inode).ino);
                if name.spec_bytes().len() > 56 {
                    r == Err::<(), Errno>(Errno::NameTooLong) && *final(self) == *old(self) && *final(inode)
                        == *old(inode)
                } else if place.0 == 12 {
                    r == Err::<(), Errno>(Errno::NoSpace) && *final(self) == *old(self) && *final(inode) == *old(inode)
                } else if place.1 >= 0 {
                    let b = old(inode).direct_blocks[place.0];
                    &&& r is Ok
                    &&& *final(inode) == *old(inode)
                    &&& b != ib ==> final(self).disk.block(b) == splice(old(self).disk.block(b), place.1 * 64, entry)
                    &&& old(inode).ino < 1024 ==> final(self).disk.inode_bytes(old(inode).ino) == inode_encoding(
                        *old(inode),
                    )
                    &&& old(self).disk.same_but(final(self).disk, b, ib, b, ib)
                } else {
                    &&& r is Err ==> r == Err::<(), Errno>(Errno::NoSpace) && *final(inode) == *old(inode) && forall|c: int|
                        0 <= c < TOTAL_BLOCKS ==> #[trigger] bitmap_bit(old(self).disk.block(1), c)
                    &&& r is Ok ==> {
                        let b = final(inode).direct_blocks[place.0];
                        &&& !bitmap_bit(old(self).disk.block(1), b as int)
                        &&& forall|c: int| 0 <= c < b ==> #[trigger] bitmap_bit(old(self).disk.block(1), c)
                        &&& *final(inode) == (DiskInode {
                            direct_blocks: final(inode).direct_blocks,
                            size: (old(inode).size + PAYLOAD_SIZE) as u64,
                            ..*old(inode)
                        })
                        &&& final(inode).direct_blocks@ == old(inode).direct_blocks@.update(place.0, b)
                        &&& b != ib ==> final(self).disk.block(b) == splice(zero_payload(), 0, entry)
                        &&& forall|x: u32|
                            x != 0 && x != 1 && x != BACKUP_SUPERBLOCK && x != b && x != ib ==> #[trigger] final(self).disk.block(x)
                                == old(self).disk.block(x)
                        &&& old(inode).ino < 1024 ==> final(self).disk.inode_bytes(old(inode).ino) == inode_encoding(
                            *final(inode),
                        )
                    }
                }
            }),
    {
        let name_bytes = name.as_bytes();
        let field = match encode_name(name_bytes) {
            Ok(f) => f,
            Err(e) => return Err(e),
        };
        let new_entry = DirEntry { ino, name: field };
        let ghost entry = entry_bytes(ino, name_bytes@);
        let ghost s0 = *self;
        let ghost d0 = *inode;
        let mut idx: usize = 0;
        while idx < DIRECT_BLOCKS
            invariant
                idx <= 12,
                *self == s0,
                *inode == d0,
                name_bytes@ == name.spec_bytes(),
                name_bytes@.len() <= 56,
                new_entry.ino == ino,
                new_entry.name@ == name_field(name_bytes@),
                entry == entry_bytes(ino, name_bytes@),
                s0.add_place(d0, 0) == s0.add_place(d0, idx as int),
                *old(self) == s0,
                *old(inode) == d0,
                s0.add_place(d0, 0).0 < 12 && s0.add_place(d0, 0).1 == -1 ==> d0.size + PAYLOAD_SIZE <= u64::MAX,
            decreases 12 - idx,
        {
            let block = inode.direct_blocks[idx];
            if block == 0 {
                match self.disk.allocate_block() {
                    Some(new_block) => {
                        let ghost s1 = self.disk.store;
                        inode.direct_blocks[idx] = new_block;
                        inode.size = inode.size + PAYLOAD_SIZE as u64;
                        let mut buf: Vec<u8> = vec![0u8; PAYLOAD_SIZE];
                        assert(buf@ =~= zero_payload());
                        assert(buf@ =~= Seq::new(4080nat, |i: int| 0u8));
                        let ghost zb = buf@;
                        write_slot(&mut buf, 0, &new_entry);
                        assert(buf@ == splice(zb, 0, entry));
                        proof {
                            lemma_auto_spec_u64_to_from_le_bytes();
                        }
                        assert(buf@.len() == PAYLOAD_SIZE);
                        let ghost f_alloc = *self;
                        self.disk.write_block(new_block, &buf);
                        let ghost s2 = self.disk.store;
                        let ghost f_w = *self;
                        self.disk.write_inode(inode);
                        proof {
                            BlockStore::lemma_changes_listed_trans(s0.disk.store, s1, s2);
                            BlockStore::lemma_changes_listed_trans(s0.disk.store, s2, self.disk.store);
                            if ino != 0 && s0.dir_sound(d0) {
                                assert(!bitmap_bit(s0.disk.block(1), new_block as int));
                                assert(new_block >= 34 && new_block != BACKUP_SUPERBLOCK) by {
                                    if new_block < 34 {
                                        assert(bitmap_bit(s0.disk.block(1), new_block as int));
                                    }
                                }
                                assert(inode_block(d0.ino) < 34);
                                assert forall|i: int|
                                    0 <= i < 12 && #[trigger] d0.direct_blocks[i] != 0 implies self.disk.block(
                                    d0.direct_blocks[i],
                                ) == s0.disk.block(d0.direct_blocks[i]) by {
                                    assert(bitmap_bit(s0.disk.block(1), d0.direct_blocks[i] as int));
                                    assert(d0.direct_blocks[i] != new_block);
                                }
                                assert(inode.direct_blocks@ =~= d0.direct_blocks@.update(idx as int, new_block));
                                crate::mount_dir::lemma_add_block_entries(
                                    s0,
                                    *self,
                                    d0,
                                    *inode,
                                    idx as int,
                                    ino,
                                    name_field(name_bytes@),
                                );
                            }
                        }
                        return Ok(());
                    },
                    None => {
                        return Err(Errno::NoSpace);
                    },
                }
            }
            let mut buf = self.disk.read_block(block);
            let found = find_free_slot(&buf);
            proof {
                lemma_free_slot_from(buf@, 0, found);
            }
            if let Some(slot) = found {
                write_slot(&mut buf, slot, &new_entry);
                proof {
                    lemma_auto_spec_u64_to_from_le_bytes();
                }
                assert(buf@.len() == PAYLOAD_SIZE);
                let ghost before = buf@;
                self.disk.write_block(block, &buf);
                let ghost s2 = self.disk.store;
                self.disk.write_inode(inode);
                proof {
                    BlockStore::lemma_changes_listed_trans(s0.disk.store, s2, self.disk.store);
                    if ino != 0 && s0.dir_sound(d0) {
                        assert(block >= 34);
                        assert(inode_block(d0.ino) < 34);
                        assert forall|i: int|
                            0 <= i < 12 && i != idx && #[trigger] d0.direct_blocks[i] != 0 implies d0.direct_blocks[i]
                            != d0.direct_blocks[idx as int] && self.disk.block(d0.direct_blocks[i]) == s0.disk.block(
                            d0.direct_blocks[i],
                        ) by {}
                        crate::mount_dir::lemma_add_slot_entries(
                            s0,
                            *self,
                            d0,
                            idx as int,
                            slot as int,
                            ino,
                            name_field(name_bytes@),
                        );
                    }
                }
                return Ok(());
            }
            idx = idx + 1;
        }
        Err(Errno::NoSpace)
    }

    /// Where the entry named `name` of directory `d` lies, scanning its
    /// direct blocks from the `k`-th: the first used slot with that name,
    /// as (direct index, slot).
    pub open spec fn remove_place(self, d: DiskInode, name: Seq<u8>, k: int) -> Option<(int, int)>
        decreases 12 - k,
    {
        if k < 0 || k >= 12 {
            None
        } else if d.direct_blocks[k] == 0 {
            self.remove_place(d, name, k + 1)
        } else {
            match named_slot_from(self.disk.block(d.direct_blocks[k]), name, 0) {
                Some(s) => Some((k, s)),
                None => self.remove_place(d, name, k + 1),
            }
        }
    }

    /// Frees the first entry of the direct blocks of directory `inode` named
    /// `name` (its inode is set to 0) and returns the inode it named.
    pub fn remove_dir_entry(&mut self, inode: &DiskInode, name: &str) -> (r: Option<u64>)
        ensures
            old(self).disk.store.changes_listed(final(self).disk.store),
            match old(self).remove_place(*inode, name.spec_bytes(), 0) {
                Some((k, s)) => {
                    let b = inode.direct_blocks[k];
                    &&& r == Some(slot_ino(old(self).disk.block(b), s))
                    &&& final(self).disk.block(b) == splice(old(self).disk.block(b), s * 64, spec_u64_to_le_bytes(0))
                    &&& forall|x: u32| x != b ==> #[trigger] final(self).disk.block(x) == old(self).disk.block(x)
                },
                None => r is None && *final(self) == *old(self),
            },
            r matches Some(t) ==> t != 0,
            r matches Some(t) ==> (old(self).dir_sound(*inode) ==> exists|j: int|
                0 <= j < old(self).dir_entries(*inode).len() && old(self).dir_entries(*inode)[j].0 == t && slot_text(
                    old(self).dir_entries(*inode)[j].1,
                ) == name.spec_bytes() && final(self).dir_entries(*inode) == old(self).dir_entries(*inode).remove(j)),
    {
        let name_bytes = name.as_bytes();
        let ghost s0 = *self;
        let mut idx: usize = 0;
        while idx < DIRECT_BLOCKS
            invariant
                idx <= 12,
                *self == s0,
                name_bytes@ == name.spec_bytes(),
                s0.remove_place(*inode, name_bytes@, 0) == s0.remove_place(*inode, name_bytes@, idx as int),
                *old(self) == s0,
            decreases 12 - idx,
        {
            let block = inode.direct_blocks[idx];
            if block != 0 {
                let mut buf = self.disk.read_block(block);
                let found = find_named_slot(&buf, name_bytes);
                proof {
                    lemma_named_slot_from(buf@, name_bytes@, 0, found);
                }
                if let Some((slot, target_ino)) = found {
                    clear_slot(&mut buf, slot);
                    proof {
                        lemma_auto_spec_u64_to_from_le_bytes();
                    }
                    assert(buf@.len() == PAYLOAD_SIZE);
                    self.disk.write_block(block, &buf);
                    proof {
                        if s0.dir_sound(*inode) {
                            assert forall|i: int|
                                0 <= i < 12 && i != idx && #[trigger] inode.direct_blocks[i] != 0 implies inode.direct_blocks[i]
                                != inode.direct_blocks[idx as int] && self.disk.block(inode.direct_blocks[i])
                                == s0.disk.block(inode.direct_blocks[i]) by {}
                            crate::mount_dir::lemma_remove_slot_entries(s0, *self, *inode, idx as int, slot as int);
                        }
                    }
                    return Some(target_ino);
                }
            }
            idx = idx + 1;
        }
        None
    }

    /// Where no direct block from the `k`-th on has a used slot named
    /// `name`, `remove_place` finds nothing, and conversely.
    proof fn lemma_remove_place_none(self, d: DiskInode, name: Seq<u8>, k: int)
        requires
            0 <= k,
            self.remove_place(d, name, k) is None,
        ensures
            forall|m: int|
                k <= m < 12 && #[trigger] d.direct_blocks[m] != 0 ==> named_slot_from(
                    self.disk.block(d.direct_blocks[m]),
                    name,
                    0,
                ) is None,
        decreases 12 - k,
    {
        if k < 12 {
            self.lemma_remove_place_none(d, name, k + 1);
        }
    }

    /// In a directory without an indirect block, an entry whose stored name
    /// is `name` is found by `remove_place`.
    proof fn lemma_remove_place_finds(self, d: DiskInode, name: Seq<u8>, i: int)
        requires
            d.indirect_block == 0,
            0 <= i < self.dir_entries(d).len(),
            slot_text(self.dir_entries(d)[i].1) == name,
        ensures
            self.remove_place(d, name, 0) is Some,
    {
        if self.remove_place(d, name, 0) is None {
            self.lemma_remove_place_none(d, name, 0);
            let bs = nonzero(d.direct_blocks@);
            crate::mount_dir::lemma_nonzero_member(d.direct_blocks@);
            assert forall|m: int| 0 <= m < bs.len() implies named_slot_from(
                self.disk.block(#[trigger] bs[m]),
                name,
                0,
            ) is None by {
                let j = choose|j: int| 0 <= j < d.direct_blocks@.len() && d.direct_blocks@[j] == bs[m];
                assert(d.direct_blocks[j] != 0);
            }
            assert(self.dir_blocks(d) =~= bs);
            crate::mount_dir::lemma_entries_unnamed(self, bs, name);
        }
    }

    /// A new entry named `name` in directory `parent` is found by a lookup
    /// afterwards: the directory is sound, no entry has that name yet, and
    /// the name has no zero byte (it ends the stored name).
    pub open spec fn create_sound(self, parent: u64, name: Seq<u8>) -> bool {
        &&& self.has_inode(parent)
        &&& self.inode(parent).ino == parent
        &&& self.inode(parent).kind == KIND_DIR
        &&& self.dir_sound(self.inode(parent))
        &&& forall|i: int|
            0 <= i < self.dir_entries(self.inode(parent)).len() ==> entry_text(
                #[trigger] self.dir_entries(self.inode(parent))[i].1,
            ) != name
        &&& forall|i: int| 0 <= i < name.len() ==> name[i] != 0
    }

    /// An entry named `name` in directory `parent` may take the place of an
    /// existing one: the directory is sound, at most one of its entries has
    /// that name, and the name is not empty and has no zero byte.
    pub open spec fn replace_sound(self, parent: u64, name: Seq<u8>) -> bool {
        let es = self.dir_entries(self.inode(parent));
        &&& self.has_inode(parent)
        &&& self.inode(parent).ino == parent
        &&& self.inode(parent).kind == KIND_DIR
        &&& self.dir_sound(self.inode(parent))
        &&& forall|i: int, j: int|
            0 <= i < es.len() && 0 <= j < es.len() && entry_text(#[trigger] es[i].1) == name && entry_text(
                #[trigger] es[j].1,
            ) == name ==> i == j
        &&& name.len() > 0
        &&& forall|i: int| 0 <= i < name.len() ==> name[i] != 0
    }

    /// No direct block of `a` is a direct block of `b`.
    pub open spec fn blocks_apart(a: DiskInode, b: DiskInode) -> bool {
        forall|i: int, j: int|
            0 <= i < 12 && 0 <= j < 12 && #[trigger] a.direct_blocks[i] != 0 ==> a.direct_blocks[i]
                != #[trigger] b.direct_blocks[j]
    }

    /// After an entry for the new inode `d` is added to sound directory
    /// `parent` (whose record goes from `pd` to `pd1`) and `d` is stored, a
    /// lookup of the name finds `d`.
    proof fn lemma_created_found(
        self,
        f0: LionFS,
        f1: LionFS,
        pd: DiskInode,
        pd1: DiskInode,
        d: DiskInode,
        parent: u64,
        name: Seq<u8>,
    )
        requires
            f0.create_sound(parent, name),
            pd == f0.inode(parent),
            pd1.kind == KIND_DIR,
            pd1.indirect_block == 0,
            valid_utf8(name),
            name.len() <= 56,
            0 < d.ino < 480,
            d.kind != 0,
            f0.disk.slot_kind(d.ino) == 0,
            exists|j: int|
                0 <= j <= f0.dir_entries(pd).len() && f1.dir_entries(pd1) == f0.dir_entries(pd).insert(
                    j,
                    (d.ino, name_field(name)),
                ),
            forall|i: int| 0 <= i < 12 && #[trigger] pd1.direct_blocks[i] != 0 ==> 34 <= pd1.direct_blocks[i],
            f1.disk.inode_bytes(parent) == inode_encoding(pd1),
            self.disk.block(inode_block(d.ino)) == splice(
                f1.disk.block(inode_block(d.ino)),
                inode_offset(d.ino),
                inode_encoding(d),
            ),
            forall|x: u32| x != inode_block(d.ino) ==> #[trigger] self.disk.block(x) == f1.disk.block(x),
            self.has_inode(d.ino),
        ensures
            self.lookup_target(parent, name) == Some(d.ino),
            self.has_inode(parent),
            self.inode(parent) == pd1,
    {
        let j = choose|j: int|
            0 <= j <= f0.dir_entries(pd).len() && f1.dir_entries(pd1) == f0.dir_entries(pd).insert(
                j,
                (d.ino, name_field(name)),
            );
        assert(d.ino != parent);
        assert(self.dir_blocks(pd1) =~= nonzero(pd1.direct_blocks@));
        assert(f1.dir_blocks(pd1) =~= nonzero(pd1.direct_blocks@));
        assert forall|i: int|
            0 <= i < 12 && #[trigger] pd1.direct_blocks@[i] != 0 implies f1.disk.block(pd1.direct_blocks@[i])
            == self.disk.block(pd1.direct_blocks@[i]) by {
            assert(pd1.direct_blocks@[i] == pd1.direct_blocks[i]);
        }
        crate::mount_dir::lemma_entries_frame_nonzero(f1, self, pd1.direct_blocks@);
        let ib = inode_block(parent);
        f1.disk.store.lemma_payload_len(ib);
        assert(self.disk.inode_bytes(parent) == f1.disk.inode_bytes(parent)) by {
            if ib == inode_block(d.ino) {
                lemma_encoding_stored(d);
                assert(parent / 15 == d.ino / 15);
                assert(parent % 15 != d.ino % 15);
                let op = inode_offset(parent);
                let od = inode_offset(d.ino);
                assert(op + 256 <= od || od + 256 <= op);
                assert(inode_encoding(d).len() == 256);
                assert(self.disk.inode_bytes(parent) =~= f1.disk.inode_bytes(parent));
            }
        }
        lemma_encoding_stored(pd1);
        assert(self.has_inode(parent));
        lemma_inode_stored_unique(self.disk.inode_bytes(parent), self.inode(parent), pd1);
        crate::mount_dir::lemma_entry_text_field(name);
        crate::mount_dir::lemma_first_hit_insert(
            self,
            f0.dir_entries(pd),
            j,
            d.ino,
            name_field(name),
            name,
            0,
        );
    }

    /// Creates a regular file named `name` in directory `parent`, with
    /// `mode` and owned by `uid`:`gid`, in the first free inode.
    pub fn create(&mut self, parent: u64, name: &str, mode: u32, uid: u32, gid: u32) -> (r: Result<DiskInode, Errno>)
        requires
            old(self).has_inode(parent) ==> old(self).inode(parent).size + PAYLOAD_SIZE <= u64::MAX,
        ensures
            old(self).disk.store.changes_listed(final(self).disk.store),
            !old(self).has_inode(parent) ==> r == Err::<DiskInode, Errno>(Errno::NoEntry) && *final(self) == *old(self),
            old(self).has_inode(parent) && old(self).disk.inodes_full() ==> r == Err::<DiskInode, Errno>(Errno::NoSpace)
                && *final(self) == *old(self),
            old(self).has_inode(parent) && !old(self).disk.inodes_full() && name.spec_bytes().len() > 56 ==> r == Err::<
                DiskInode,
                Errno,
            >(Errno::NameTooLong),
            r matches Ok(d) ==> (old(self).create_sound(parent, name.spec_bytes()) ==> final(self).lookup_target(
                parent,
                name.spec_bytes(),
            ) == Some(d.ino)),
            r matches Ok(d) ==> {
                &&& old(self).has_inode(parent)
                &&& old(self).disk.first_free_inode(d.ino)
                &&& is_new_inode(d, d.ino, parent, KIND_FILE, mode as u16, uid, gid)
                &&& final(self).has_inode(d.ino)
                &&& final(self).inode(d.ino) == d
            },
            r matches Err(e) ==> e == Errno::NoEntry || e == Errno::NoSpace || e == Errno::NameTooLong,
            old(self).has_inode(parent) && !old(self).disk.inodes_full() && old(self).entry_fits(
                old(self).inode(parent),
                name.spec_bytes(),
            ) ==> r is Ok,
            r == Err::<DiskInode, Errno>(Errno::NoSpace) ==> old(self).disk.inodes_full() || !old(self).entry_fits(
                old(self).inode(parent),
                name.spec_bytes(),
            ),
    {
        let mut parent_inode = match self.disk.read_inode(parent) {
            Some(inode) => inode,
            None => return Err(Errno::NoEntry),
        };
        let ino = match self.disk.allocate_inode() {
            Some(ino) => ino,
            None => return Err(Errno::NoSpace),
        };
        let new_inode = DiskInode::new(ino, parent, KIND_FILE, mode as u16, uid, gid);
        let ghost s0 = self.disk.store;
        let ghost f0 = *self;
        let ghost pd = parent_inode;
        let added = self.add_dir_entry(&mut parent_inode, name, ino);
        if let Err(e) = added {
            let ghost s1 = self.disk.store;
            self.disk.free_inode(ino);
            proof {
                BlockStore::lemma_changes_listed_trans(s0, s1, self.disk.store);
            }
            return Err(e);
        }
        let ghost s1 = self.disk.store;
        let ghost f1 = *self;
        self.disk.write_inode(&new_inode);
        proof {
            BlockStore::lemma_changes_listed_trans(s0, s1, self.disk.store);
            if f0.create_sound(parent, name.spec_bytes()) {
                vstd::utf8::encode_utf8_valid_utf8(name@);
                assert(f1.disk.inode_bytes(parent) == inode_encoding(parent_inode)) by {
                    let place = f0.add_place(pd, 0);
                    assert(added is Ok);
                    assert(name.spec_bytes().len() <= 56);
                    assert(place.0 != 12);
                    assert(pd == f0.inode(parent));
                    assert(pd.ino == parent);
                    if place.1 >= 0 {
                        assert(parent_inode == pd);
                        assert(f1.disk.inode_bytes(pd.ino) == inode_encoding(pd));
                    } else {
                        assert(f1.disk.inode_bytes(pd.ino) == inode_encoding(parent_inode));
                    }
                }
                self.lemma_created_found(f0, f1, pd, parent_inode, new_inode, parent, name.spec_bytes());
            }
        }
        Ok(new_inode)
    }

    /// Creates a directory named `name` in directory `parent`, with `mode`
    /// and owned by `uid`:`gid`, in the first free inode and with the first
    /// free block as its first block; the parent gains a link.
    pub fn mkdir(&mut self, parent: u64, name: &str, mode: u32, uid: u32, gid: u32) -> (r: Result<DiskInode, Errno>)
        requires
            old(self).has_inode(parent) ==> {
                &&& old(self).inode(parent).size + PAYLOAD_SIZE <= u64::MAX
                &&& old(self).inode(parent).nlink < u32::MAX
            },
        ensures
            old(self).disk.store.changes_listed(final(self).disk.store),
            !old(self).has_inode(parent) ==> r == Err::<DiskInode, Errno>(Errno::NoEntry) && *final(self) == *old(self),
            old(self).has_inode(parent) && old(self).disk.inodes_full() ==> r == Err::<DiskInode, Errno>(Errno::NoSpace)
                && *final(self) == *old(self),
            old(self).has_inode(parent) && !old(self).disk.inodes_full() && old(self).disk.blocks_full() ==> r == Err::<
                DiskInode,
                Errno,
            >(Errno::NoSpace),
            r matches Ok(d) ==> {
                &&& old(self).has_inode(parent)
                &&& old(self).disk.first_free_inode(d.ino)
                &&& old(self).disk.first_free_block(d.direct_blocks[0])
                &&& is_new_inode_with_first_block(
                    d,
                    d.ino,
                    parent,
                    KIND_DIR,
                    mode as u16,
                    uid,
                    gid,
                )
                &&& final(self).has_inode(d.ino)
                &&& final(self).inode(d.ino) == d
            },
            r matches Ok(d) ==> (old(self).create_sound(parent, name.spec_bytes()) ==> {
                &&& final(self).lookup_target(parent, name.spec_bytes()) == Some(d.ino)
                &&& final(self).has_inode(parent)
                &&& final(self).inode(parent).nlink == old(self).inode(parent).nlink + 1
            }),
            r matches Err(e) ==> e == Errno::NoEntry || e == Errno::NoSpace || e == Errno::NameTooLong,
            old(self).has_inode(parent) && !old(self).disk.inodes_full() && old(self).dir_sound(old(self).inode(parent))
                && old(self).mkdir_fits(old(self).inode(parent), name.spec_bytes()) ==> r is Ok,
    {
        let mut parent_inode = match self.disk.read_inode(parent) {
            Some(inode) => inode,
            None => return Err(Errno::NoEntry),
        };
        let ino = match self.disk.allocate_inode() {
            Some(ino) => ino,
            None => return Err(Errno::NoSpace),
        };
        let mut new_inode = DiskInode::new(ino, parent, KIND_DIR, mode as u16, uid, gid);
        let ghost s0 = self.disk.store;
        let ghost f0 = *self;
        match self.disk.allocate_block() {
            Some(block) => {
                new_inode.direct_blocks[0] = block;
            },
            None => {
                let ghost s1 = self.disk.store;
                self.disk.free_inode(ino);
                proof {
                    BlockStore::lemma_changes_listed_trans(s0, s1, self.disk.store);
                }
                return Err(Errno::NoSpace);
            },
        }
        let ghost s1 = self.disk.store;
        let ghost fa = *self;
        let ghost pd = parent_inode;
        proof {
            if f0.dir_sound(pd) {
                let b = new_inode.direct_blocks[0];
                assert(b != 1 && b != 0) by {
                    assert(bitmap_bit(f0.disk.block(1), 1));
                    assert(bitmap_bit(f0.disk.block(1), 0));
                }
                assert forall|i: int| 0 <= i < 12 && #[trigger] pd.direct_blocks[i] != 0 implies fa.disk.block(
                    pd.direct_blocks[i],
                ) == f0.disk.block(pd.direct_blocks[i]) by {
                    assert(bitmap_bit(f0.disk.block(1), pd.direct_blocks[i] as int));
                }
                f0.lemma_add_place_frame(fa, pd, 0);
                if f0.two_blocks_free() {
                    let (c1, c2) = choose|c1: int, c2: int|
                        0 <= c1 < TOTAL_BLOCKS && 0 <= c2 < TOTAL_BLOCKS && c1 != c2 && !#[trigger] bitmap_bit(
                            f0.disk.block(1),
                            c1,
                        ) && !#[trigger] bitmap_bit(f0.disk.block(1), c2);
                    if c1 != b {
                        assert(!bitmap_bit(fa.disk.block(1), c1));
                    } else {
                        assert(!bitmap_bit(fa.disk.block(1), c2));
                    }
                }
            }
            if f0.create_sound(parent, name.spec_bytes()) {
                self.lemma_allocation_keeps_sound(f0, pd, parent, name.spec_bytes(), new_inode.direct_blocks[0]);
            }
        }
        let added = self.add_dir_entry(&mut parent_inode, name, ino);
        if let Err(e) = added {
            let ghost s2 = self.disk.store;
            self.disk.free_block(new_inode.direct_blocks[0]);
            let ghost s3 = self.disk.store;
            self.disk.free_inode(ino);
            proof {
                BlockStore::lemma_changes_listed_trans(s0, s1, s2);
                BlockStore::lemma_changes_listed_trans(s0, s2, s3);
                BlockStore::lemma_changes_listed_trans(s0, s3, self.disk.store);
            }
            return Err(e);
        }
        let ghost s2 = self.disk.store;
        let ghost f1 = *self;
        let ghost pd1 = parent_inode;
        parent_inode.nlink = parent_inode.nlink + 1;
        self.disk.write_inode(&parent_inode);
        let ghost s3 = self.disk.store;
        let ghost f2 = *self;
        self.disk.write_inode(&new_inode);
        proof {
            BlockStore::lemma_changes_listed_trans(s0, s1, s2);
            BlockStore::lemma_changes_listed_trans(s0, s2, s3);
            BlockStore::lemma_changes_listed_trans(s0, s3, self.disk.store);
            if f0.create_sound(parent, name.spec_bytes()) {
                vstd::utf8::encode_utf8_valid_utf8(name@);
                let j = choose|j: int|
                    0 <= j <= fa.dir_entries(pd).len() && f1.dir_entries(pd1) == fa.dir_entries(pd).insert(
                        j,
                        (ino, name_field(name.spec_bytes())),
                    );
                assert(f2.dir_blocks(parent_inode) =~= nonzero(pd1.direct_blocks@));
                assert(f1.dir_blocks(pd1) =~= nonzero(pd1.direct_blocks@));
                assert forall|i: int|
                    0 <= i < 12 && #[trigger] pd1.direct_blocks@[i] != 0 implies f1.disk.block(pd1.direct_blocks@[i])
                    == f2.disk.block(pd1.direct_blocks@[i]) by {
                    assert(pd1.direct_blocks@[i] == pd1.direct_blocks[i]);
                }
                crate::mount_dir::lemma_entries_frame_nonzero(f1, f2, pd1.direct_blocks@);
                assert(f2.dir_entries(parent_inode) == fa.dir_entries(pd).insert(
                    j,
                    (ino, name_field(name.spec_bytes())),
                ));
                self.lemma_created_found(fa, f2, pd, parent_inode, new_inode, parent, name.spec_bytes());
            }
        }
        Ok(new_inode)
    }

    /// Allocating a block keeps a sound directory, its entries and its
    /// record as they were.
    proof fn lemma_allocation_keeps_sound(self, f0: LionFS, pd: DiskInode, parent: u64, name: Seq<u8>, b: u32)
        requires
            f0.create_sound(parent, name),
            pd == f0.inode(parent),
            f0.disk.first_free_block(b),
            self.disk.block(1).len() == PAYLOAD_SIZE,
            forall|c: int|
                0 <= c < TOTAL_BLOCKS ==> #[trigger] bitmap_bit(self.disk.block(1), c) == (c == b || bitmap_bit(
                    f0.disk.block(1),
                    c,
                )),
            f0.disk.same_but(self.disk, 0, 1, BACKUP_SUPERBLOCK, b),
        ensures
            self.create_sound(parent, name),
            self.inode(parent) == pd,
            self.dir_entries(pd) == f0.dir_entries(pd),
            forall|x: u64| x < 480 ==> #[trigger] self.disk.slot_kind(x) == f0.disk.slot_kind(x),
    {
        assert(b >= 34 && b != BACKUP_SUPERBLOCK) by {
            if b < 34 {
                assert(bitmap_bit(f0.disk.block(1), b as int));
            }
        }
        assert(inode_block(parent) < 34);
        assert(self.disk.inode_bytes(parent) == f0.disk.inode_bytes(parent));
        assert forall|x: u64| x < 480 implies #[trigger] self.disk.slot_kind(x) == f0.disk.slot_kind(x) by {
            assert(inode_block(x) < 34);
            assert(self.disk.inode_bytes(x) == f0.disk.inode_bytes(x));
        }
        assert(self.reserved_in_use()) by {
            assert forall|c: int| (0 <= c < 34 || c == BACKUP_SUPERBLOCK) implies #[trigger] bitmap_bit(
                self.disk.block(1),
                c,
            ) by {
                assert(bitmap_bit(f0.disk.block(1), c));
            }
        }
        assert forall|i: int|
            0 <= i < 12 && #[trigger] pd.direct_blocks[i] != 0 implies 34 <= pd.direct_blocks[i] < BACKUP_SUPERBLOCK
            && bitmap_bit(self.disk.block(1), pd.direct_blocks[i] as int) by {
            assert(bitmap_bit(f0.disk.block(1), pd.direct_blocks[i] as int));
        }
        assert(self.direct_blocks_sound(pd));
        assert forall|i: int|
            0 <= i < 12 && #[trigger] pd.direct_blocks@[i] != 0 implies f0.disk.block(pd.direct_blocks@[i])
            == self.disk.block(pd.direct_blocks@[i]) by {
            assert(pd.direct_blocks@[i] == pd.direct_blocks[i]);
            assert(bitmap_bit(f0.disk.block(1), pd.direct_blocks[i] as int));
        }
        crate::mount_dir::lemma_entries_frame_nonzero(f0, self, pd.direct_blocks@);
        assert(self.dir_blocks(pd) =~= nonzero(pd.direct_blocks@));
        assert(f0.dir_blocks(pd) =~= nonzero(pd.direct_blocks@));
        assert(self.has_inode(parent));
        assert(self.inode(parent) == pd);
        assert(self.dir_sound(pd));
        assert(self.dir_entries(pd) == f0.dir_entries(pd));
    }

    /// Creates a symbolic link named `name` to `link` in directory
    /// `parent`, owned by `uid`:`gid`, in the first free inode; the target
    /// is kept at the start of the first free block.
    pub fn symlink(&mut self, parent: u64, name: &str, link: &[u8], uid: u32, gid: u32) -> (r: Result<
        DiskInode,
        Errno,
    >)
        requires
            old(self).has_inode(parent) ==> old(self).inode(parent).size + PAYLOAD_SIZE <= u64::MAX,
            old(self).has_inode(parent) && !old(self).disk.inodes_full() && !old(self).disk.blocks_full()
                ==> link@.len() <= PAYLOAD_SIZE,
        ensures
            old(self).disk.store.changes_listed(final(self).disk.store),
            !old(self).has_inode(parent) ==> r == Err::<DiskInode, Errno>(Errno::NoEntry) && *final(self) == *old(self),
            old(self).has_inode(parent) && old(self).disk.inodes_full() ==> r == Err::<DiskInode, Errno>(Errno::NoSpace)
                && *final(self) == *old(self),
            old(self).has_inode(parent) && !old(self).disk.inodes_full() && old(self).disk.blocks_full() ==> r == Err::<
                DiskInode,
                Errno,
            >(Errno::NoSpace),
            r matches Ok(d) ==> {
                &&& old(self).has_inode(parent)
                &&& old(self).disk.first_free_inode(d.ino)
                &&& old(self).disk.first_free_block(d.direct_blocks[0])
                &&& d.size == link@.len()
                &&& is_new_inode_with_first_block(
                    DiskInode { size: 0, ..d },
                    d.ino,
                    parent,
                    KIND_SYMLINK,
                    0o777,
                    uid,
                    gid,
                )
                &&& final(self).has_inode(d.ino)
                &&& final(self).inode(d.ino) == d
            },
            r matches Ok(d) ==> (old(self).dir_sound(old(self).inode(parent)) ==> final(self).disk.block(
                d.direct_blocks[0],
            ).subrange(0, link@.len() as int) == link@),
            r matches Err(e) ==> e == Errno::NoEntry || e == Errno::NoSpace || e == Errno::NameTooLong,
            old(self).has_inode(parent) && !old(self).disk.inodes_full() && old(self).dir_sound(old(self).inode(parent))
                && old(self).mkdir_fits(old(self).inode(parent), name.spec_bytes()) ==> r is Ok,
    {
        let mut parent_inode = match self.disk.read_inode(parent) {
            Some(inode) => inode,
            None => return Err(Errno::NoEntry),
        };
        let ino = match self.disk.allocate_inode() {
            Some(ino) => ino,
            None => return Err(Errno::NoSpace),
        };
        let ghost f_start = *self;
        let mut new_inode = DiskInode::new(ino, parent, KIND_SYMLINK, 0o777, uid, gid);
        new_inode.size = link.len() as u64;
        let ghost s0 = self.disk.store;
        match self.disk.allocate_block() {
            Some(block) => {
                new_inode.direct_blocks[0] = block;
                let mut buf: Vec<u8> = vec![0u8; PAYLOAD_SIZE];
                set_bytes(&mut buf, 0, link);
                assert(buf@.len() == PAYLOAD_SIZE);
                assert(buf@.subrange(0, link@.len() as int) =~= link@);
                let ghost s1 = self.disk.store;
                self.disk.write_block(block, &buf);
                proof {
                    BlockStore::lemma_changes_listed_trans(s0, s1, self.disk.store);
                }
            },
            None => {
                let ghost s1 = self.disk.store;
                self.disk.free_inode(ino);
                proof {
                    BlockStore::lemma_changes_listed_trans(s0, s1, self.disk.store);
                }
                return Err(Errno::NoSpace);
            },
        }
        let ghost s1 = self.disk.store;
        let ghost f_call = *self;
        let ghost pd = parent_inode;
        proof {
            if f_start.dir_sound(pd) {
                let b = new_inode.direct_blocks[0];
                assert(b != 1 && b != 0) by {
                    assert(bitmap_bit(f_start.disk.block(1), 1));
                    assert(bitmap_bit(f_start.disk.block(1), 0));
                }
                assert forall|i: int| 0 <= i < 12 && #[trigger] pd.direct_blocks[i] != 0 implies f_call.disk.block(
                    pd.direct_blocks[i],
                ) == f_start.disk.block(pd.direct_blocks[i]) by {
                    assert(bitmap_bit(f_start.disk.block(1), pd.direct_blocks[i] as int));
                }
                f_start.lemma_add_place_frame(f_call, pd, 0);
                if f_start.two_blocks_free() {
                    let (c1, c2) = choose|c1: int, c2: int|
                        0 <= c1 < TOTAL_BLOCKS && 0 <= c2 < TOTAL_BLOCKS && c1 != c2 && !#[trigger] bitmap_bit(
                            f_start.disk.block(1),
                            c1,
                        ) && !#[trigger] bitmap_bit(f_start.disk.block(1), c2);
                    if c1 != b {
                        assert(!bitmap_bit(f_call.disk.block(1), c1));
                    } else {
                        assert(!bitmap_bit(f_call.disk.block(1), c2));
                    }
                }
            }
        }
        let added = self.add_dir_entry(&mut parent_inode, name, ino);
        if let Err(e) = added {
            let ghost s2 = self.disk.store;
            self.disk.free_block(new_inode.direct_blocks[0]);
            let ghost s3 = self.disk.store;
            self.disk.free_inode(ino);
            proof {
                BlockStore::lemma_changes_listed_trans(s0, s1, s2);
                BlockStore::lemma_changes_listed_trans(s0, s2, s3);
                BlockStore::lemma_changes_listed_trans(s0, s3, self.disk.store);
            }
            return Err(e);
        }
        let ghost s2 = self.disk.store;
        let ghost f_added = *self;
        self.disk.write_inode(&new_inode);
        proof {
            BlockStore::lemma_changes_listed_trans(s0, s1, s2);
            BlockStore::lemma_changes_listed_trans(s0, s2, self.disk.store);
            if f_start.dir_sound(f_start.inode(parent)) {
                let b = new_inode.direct_blocks[0];
                assert(pd == f_start.inode(parent));
                assert(!bitmap_bit(f_start.disk.block(1), b as int));
                assert(b >= 34 && b != BACKUP_SUPERBLOCK) by {
                    if b < 34 {
                        assert(bitmap_bit(f_start.disk.block(1), b as int));
                    }
                }
                assert(bitmap_bit(f_call.disk.block(1), b as int)) by {
                    assert(bitmap_bit(f_start.disk.block(1), 1));
                }
                assert(inode_block(pd.ino) < 34);
                assert(f_added.disk.block(b) == f_call.disk.block(b)) by {
                    let place = f_call.add_place(pd, 0);
                    f_call.lemma_add_place(pd, 0);
                    if place.1 >= 0 {
                        let bk = pd.direct_blocks[place.0];
                        assert(bitmap_bit(f_start.disk.block(1), bk as int));
                        assert(bk != b);
                    } else {
                        let nb = parent_inode.direct_blocks[place.0];
                        assert(!bitmap_bit(f_call.disk.block(1), nb as int));
                        assert(nb != b);
                    }
                }
                assert(inode_block(ino) < 34);
            }
        }
        Ok(new_inode)
    }

    /// An unlink of `name` from directory `parent` leaves the rest of the
    /// directory alone: the directory is sound, the entry it removes names
    /// an inode of the table, and that inode's indirect block (if it exists)
    /// is none of the directory's blocks.
    pub open spec fn unlink_sound(self, parent: u64, name: Seq<u8>) -> bool {
        &&& self.has_inode(parent)
        &&& self.dir_sound(self.inode(parent))
        &&& match self.remove_place(self.inode(parent), name, 0) {
            Some((k, s)) => {
                let t = slot_ino(self.disk.block(self.inode(parent).direct_blocks[k]), s);
                &&& t < 480
                &&& self.has_inode(t) ==> forall|i: int|
                    0 <= i < 12 && #[trigger] self.inode(parent).direct_blocks[i] != 0 ==> self.inode(t).indirect_block
                        != self.inode(parent).direct_blocks[i]
            },
            None => true,
        }
    }

    /// Removes the entry named `name` from directory `parent`: the first of
    /// its direct blocks with that name. The inode it named, if it exists,
    /// loses its blocks and its slot.
    pub fn unlink(&mut self, parent: u64, name: &str) -> (r: Result<(), Errno>)
        ensures
            old(self).disk.store.changes_listed(final(self).disk.store),
            !old(self).has_inode(parent) ==> r == Err::<(), Errno>(Errno::NoEntry) && *final(self) == *old(self),
            old(self).has_inode(parent) ==> match old(self).remove_place(
                old(self).inode(parent),
                name.spec_bytes(),
                0,
            ) {
                None => r == Err::<(), Errno>(Errno::NoEntry) && *final(self) == *old(self),
                Some((k, s)) => {
                    let t = slot_ino(old(self).disk.block(old(self).inode(parent).direct_blocks[k]), s);
                    &&& r == Ok::<(), Errno>(())
                    &&& !final(self).has_inode(t) || final(self).disk.inode_bytes(t) == Seq::new(256, |i: int| 0u8)
                },
            },
            r is Ok && old(self).unlink_sound(parent, name.spec_bytes()) ==> exists|j: int|
                0 <= j < old(self).dir_entries(old(self).inode(parent)).len() && slot_text(
                    old(self).dir_entries(old(self).inode(parent))[j].1,
                ) == name.spec_bytes() && final(self).dir_entries(old(self).inode(parent)) == old(self).dir_entries(
                    old(self).inode(parent),
                ).remove(j),
    {
        let parent_inode = match self.disk.read_inode(parent) {
            Some(inode) => inode,
            None => return Err(Errno::NoEntry),
        };
        let ghost s0 = self.disk.store;
        let ghost f0 = *self;
        match self.remove_dir_entry(&parent_inode, name) {
            Some(target_ino) => {
                let ghost s1 = self.disk.store;
                let ghost fa = *self;
                if let Some(mut target_inode) = self.disk.read_inode(target_ino) {
                    let ghost d_t = target_inode;
                    self.free_file_blocks(&mut target_inode, 0);
                    let ghost s2 = self.disk.store;
                    let ghost fb = *self;
                    self.disk.free_inode(target_ino);
                    proof {
                        BlockStore::lemma_changes_listed_trans(s0, s1, s2);
                        BlockStore::lemma_changes_listed_trans(s0, s2, self.disk.store);
                        if f0.unlink_sound(parent, name.spec_bytes()) {
                            f0.lemma_remove_place_block(parent_inode, name.spec_bytes(), 0);
                            assert(target_ino < 480);
                            assert(inode_block(target_ino) < 34);
                            assert(fa.disk.inode_bytes(target_ino) == f0.disk.inode_bytes(target_ino));
                            assert(d_t == f0.inode(target_ino));
                            assert forall|i: int|
                                0 <= i < 12 && #[trigger] parent_inode.direct_blocks@[i] != 0 implies fa.disk.block(
                                parent_inode.direct_blocks@[i],
                            ) == self.disk.block(parent_inode.direct_blocks@[i]) by {
                                assert(parent_inode.direct_blocks@[i] == parent_inode.direct_blocks[i]);
                            }
                            crate::mount_dir::lemma_entries_frame_nonzero(fa, *self, parent_inode.direct_blocks@);
                            assert(self.dir_blocks(parent_inode) =~= nonzero(parent_inode.direct_blocks@));
                            assert(fa.dir_blocks(parent_inode) =~= nonzero(parent_inode.direct_blocks@));
                        }
                    }
                }
                Ok(())
            },
            None => Err(Errno::NoEntry),
        }
    }

    /// The inode of the first entry of `es` from the `k`-th on whose name is
    /// `name`.
    pub open spec fn first_named(es: Seq<(u64, Seq<u8>)>, name: Seq<u8>, k: int) -> Option<u64>
        decreases es.len() - k,
    {
        if k < 0 || k >= es.len() {
            None
        } else if entry_text(es[k].1) == name {
            Some(es[k].0)
        } else {
            Self::first_named(es, name, k + 1)
        }
    }

    /// What `first_named` finds is an entry with that name.
    proof fn lemma_first_named_some(es: Seq<(u64, Seq<u8>)>, name: Seq<u8>, k: int)
        requires
            Self::first_named(es, name, k) is Some,
        ensures
            exists|j: int|
                k <= j < es.len() && 0 <= j && entry_text(#[trigger] es[j].1) == name && es[j].0 == Self::first_named(
                    es,
                    name,
                    k,
                )->0,
        decreases es.len() - k,
    {
        if entry_text(es[k].1) != name {
            Self::lemma_first_named_some(es, name, k + 1);
        }
    }

    /// Removes the empty directory named `name` from directory `parent`:
    /// the first entry with that name names it; the entry of its direct
    /// blocks with that name goes, the parent loses a link, and the
    /// directory loses its blocks and its slot.
    pub fn rmdir(&mut self, parent: u64, name: &str) -> (r: Result<(), Errno>)
        requires
            old(self).has_inode(parent) ==> old(self).inode(parent).nlink > 0,
        ensures
            old(self).disk.store.changes_listed(final(self).disk.store),
            !old(self).has_inode(parent) ==> r == Err::<(), Errno>(Errno::NoEntry) && *final(self) == *old(self),
            old(self).has_inode(parent) ==> match Self::first_named(
                old(self).dir_entries(old(self).inode(parent)),
                name.spec_bytes(),
                0,
            ) {
                None => r == Err::<(), Errno>(Errno::NoEntry) && *final(self) == *old(self),
                Some(t) => if !old(self).has_inode(t) {
                    r == Err::<(), Errno>(Errno::NoEntry) && *final(self) == *old(self)
                } else if old(self).dir_entries(old(self).inode(t)).len() > 0 {
                    r == Err::<(), Errno>(Errno::NotEmpty) && *final(self) == *old(self)
                } else {
                    &&& r == Ok::<(), Errno>(())
                    &&& final(self).disk.inode_bytes(t) == Seq::new(256, |i: int| 0u8)
                    &&& old(self).dir_sound(old(self).inode(parent)) && old(self).inode(parent).ino == parent
                        && old(self).inode(t).indirect_block == 0 && t < 480 && name.spec_bytes().len() > 0 ==> {
                        let es = old(self).dir_entries(old(self).inode(parent));
                        &&& final(self).has_inode(parent)
                        &&& final(self).inode(parent) == (DiskInode {
                            nlink: (old(self).inode(parent).nlink - 1) as u32,
                            ..old(self).inode(parent)
                        })
                        &&& exists|j: int|
                            0 <= j < es.len() && entry_text(es[j].1) == name.spec_bytes() && final(self).dir_entries(
                                final(self).inode(parent),
                            ) == es.remove(j)
                        &&& forall|c: int|
                            0 <= c < TOTAL_BLOCKS ==> #[trigger] bitmap_bit(final(self).disk.block(1), c) == (bitmap_bit(
                                old(self).disk.block(1),
                                c,
                            ) && !old(self).frees(old(self).inode(t), 0, c))
                    }
                },
            },
    {
        let mut parent_inode = match self.disk.read_inode(parent) {
            Some(inode) => inode,
            None => return Err(Errno::NoEntry),
        };
        let name_bytes = name.as_bytes();
        let entries = self.get_dir_entries(&parent_inode);
        let ghost es = entry_pairs(entries@);
        let mut k: usize = 0;
        let mut target: Option<u64> = None;
        while k < entries.len()
            invariant_except_break
                target is None,
            invariant
                k <= entries@.len(),
                es == entry_pairs(entries@),
                Self::first_named(es, name_bytes@, 0) == Self::first_named(es, name_bytes@, k as int),
            ensures
                target == Self::first_named(es, name_bytes@, 0),
            decreases entries@.len() - k,
        {
            let entry = entries[k];
            if Self::name_matches(&entry.name, name_bytes) {
                assert(es[k as int] == (entry.ino, entry.name@));
                target = Some(entry.ino);
                break;
            }
            k = k + 1;
        }
        let target_ino = match target {
            Some(t) => t,
            None => return Err(Errno::NoEntry),
        };
        let mut target_inode = match self.disk.read_inode(target_ino) {
            Some(inode) => inode,
            None => return Err(Errno::NoEntry),
        };
        let children = self.get_dir_entries(&target_inode);
        if children.len() > 0 {
            return Err(Errno::NotEmpty);
        }
        let ghost s0 = self.disk.store;
        let ghost f0 = *self;
        let ghost pd = parent_inode;
        let removed = self.remove_dir_entry(&parent_inode, name);
        let ghost s1 = self.disk.store;
        let ghost f1 = *self;
        parent_inode.nlink = parent_inode.nlink - 1;
        self.disk.write_inode(&parent_inode);
        let ghost s2 = self.disk.store;
        let ghost f2 = *self;
        let ghost td = target_inode;
        self.free_file_blocks(&mut target_inode, 0);
        let ghost s3 = self.disk.store;
        let ghost f3 = *self;
        self.disk.free_inode(target_ino);
        proof {
            BlockStore::lemma_changes_listed_trans(s0, s1, s2);
            BlockStore::lemma_changes_listed_trans(s0, s2, s3);
            BlockStore::lemma_changes_listed_trans(s0, s3, self.disk.store);
            if f0.dir_sound(pd) && pd.ino == parent && td.indirect_block == 0 && target_ino < 480
                && name.spec_bytes().len() > 0 {
                vstd::utf8::encode_utf8_valid_utf8(name@);
                Self::lemma_first_named_some(es, name.spec_bytes(), 0);
                let jn = choose|j: int| 0 <= j < es.len() && entry_text(es[j].1) == name.spec_bytes();
                f0.lemma_remove_place_finds(pd, name.spec_bytes(), jn);
                f0.lemma_remove_place_block(pd, name.spec_bytes(), 0);
                assert(f1.disk.block(1) == f0.disk.block(1));
                assert(f2.disk.block(1) == f1.disk.block(1));
                assert(self.disk.block(1) == f3.disk.block(1));
                assert forall|c: int| 0 <= c < TOTAL_BLOCKS implies #[trigger] bitmap_bit(self.disk.block(1), c)
                    == (bitmap_bit(f0.disk.block(1), c) && !f0.frees(td, 0, c)) by {
                    assert(bitmap_bit(f3.disk.block(1), c) == (bitmap_bit(f2.disk.block(1), c) && !f2.frees(td, 0, c)));
                }
                self.lemma_rmdir_entries(f0, f1, f2, f3, pd, parent_inode, parent, target_ino, name.spec_bytes());
            }
        }
        Ok(())
    }

    /// The parent's entries after `rmdir`: the record of sound directory
    /// `parent` goes from `pd` to `pd1` (its link count only), one entry
    /// named `name` is removed from its blocks (`f0` to `f1`), then only
    /// the inode table and the reserved blocks change, none of them in
    /// `parent`'s slot.
    proof fn lemma_rmdir_entries(
        self,
        f0: LionFS,
        f1: LionFS,
        f2: LionFS,
        f3: LionFS,
        pd: DiskInode,
        pd1: DiskInode,
        parent: u64,
        t: u64,
        name: Seq<u8>,
    )
        requires
            f0.dir_sound(pd),
            pd.ino == parent,
            f0.has_inode(parent),
            pd == f0.inode(parent),
            valid_utf8(name),
            t < 480,
            t != parent,
            f0.remove_place(pd, name, 0) matches Some((k, s)) && {
                let b = pd.direct_blocks[k];
                &&& f1.disk.block(b) == splice(f0.disk.block(b), s * 64, spec_u64_to_le_bytes(0))
                &&& forall|x: u32| x != b ==> #[trigger] f1.disk.block(x) == f0.disk.block(x)
            },
            exists|j: int|
                0 <= j < f0.dir_entries(pd).len() && slot_text(f0.dir_entries(pd)[j].1) == name && f1.dir_entries(pd)
                    == f0.dir_entries(pd).remove(j),
            pd1 == (DiskInode { nlink: pd1.nlink, ..pd }),
            forall|x: u32| x != inode_block(parent) ==> #[trigger] f2.disk.block(x) == f1.disk.block(x),
            f2.has_inode(parent) && f2.inode(parent) == pd1,
            f2.disk.same_but(f3.disk, 0, 1, BACKUP_SUPERBLOCK, 0),
            forall|x: u32| x != inode_block(t) ==> #[trigger] self.disk.block(x) == f3.disk.block(x),
            forall|x: u64| x < 480 && x != t ==> #[trigger] self.disk.inode_bytes(x) == f3.disk.inode_bytes(x),
        ensures
            self.has_inode(parent),
            self.inode(parent) == pd1,
            exists|j: int|
                0 <= j < f0.dir_entries(pd).len() && entry_text(f0.dir_entries(pd)[j].1) == name
                    && self.dir_entries(self.inode(parent)) == f0.dir_entries(pd).remove(j),
    {
        let e0 = f0.dir_entries(pd);
        let j = choose|j: int|
            0 <= j < e0.len() && slot_text(e0[j].1) == name && f1.dir_entries(pd) == e0.remove(j);
        f0.lemma_remove_place_block(pd, name, 0);
        assert(inode_block(parent) < 34);
        assert(inode_block(t) < 34);
        assert(f3.disk.inode_bytes(parent) == f2.disk.inode_bytes(parent));
        assert(self.disk.inode_bytes(parent) == f3.disk.inode_bytes(parent));
        assert(self.has_inode(parent));
        assert(self.inode(parent) == pd1);
        assert forall|i: int| 0 <= i < 12 && #[trigger] pd.direct_blocks@[i] != 0 implies f1.disk.block(
            pd.direct_blocks@[i],
        ) == self.disk.block(pd.direct_blocks@[i]) by {
            assert(pd.direct_blocks[i] >= 34);
        }
        crate::mount_dir::lemma_entries_frame_nonzero(f1, self, pd.direct_blocks@);
        assert(self.dir_blocks(pd1) =~= f1.dir_blocks(pd));
        assert(entry_text(e0[j].1) == name);
    }

    /// Across two directories: the entry naming `t` is removed from sound
    /// directory `parent` (`f0` to `f1`), whose record is stored again (`f2`),
    /// the entry named `newname` of `newparent`, if any, is removed (`f3`),
    /// an entry `newname` for `t` is added (`f4`, the record going from `pn`
    /// to `pn1`), and the record of `t` is stored again (`self`): a lookup
    /// of `newname` in `newparent` finds `t`.
    proof fn lemma_moved_found(
        self,
        f0: LionFS,
        f1: LionFS,
        f2: LionFS,
        f3: LionFS,
        f4: LionFS,
        po: DiskInode,
        pn: DiskInode,
        pn1: DiskInode,
        parent: u64,
        newparent: u64,
        name: Seq<u8>,
        newname: Seq<u8>,
        t: u64,
        second: Option<u64>,
    )
        requires
            f0.has_inode(parent),
            po == f0.inode(parent),
            po.ino == parent,
            f0.dir_sound(po),
            pn == f0.inode(newparent),
            f0.replace_sound(newparent, newname),
            Self::blocks_apart(po, pn),
            parent != newparent,
            valid_utf8(newname),
            newname.len() <= 56,
            f0.remove_place(po, name, 0) matches Some((k, s)) && t == slot_ino(f0.disk.block(po.direct_blocks[k]), s)
                && f1.disk.block(po.direct_blocks[k]) == splice(
                f0.disk.block(po.direct_blocks[k]),
                s * 64,
                spec_u64_to_le_bytes(0),
            ) && forall|x: u32| x != po.direct_blocks[k] ==> #[trigger] f1.disk.block(x) == f0.disk.block(x),
            t != 0,
            t < 480,
            t != parent,
            t != newparent,
            f0.has_inode(t),
            f0.inode(t).ino == t,
            forall|x: u32| x != inode_block(parent) ==> #[trigger] f2.disk.block(x) == f1.disk.block(x),
            forall|x: u64| x < 480 && x != parent ==> #[trigger] f2.disk.inode_bytes(x) == f1.disk.inode_bytes(x),
            match f2.remove_place(pn, newname, 0) {
                Some((k, s)) => {
                    let b = pn.direct_blocks[k];
                    &&& second is Some
                    &&& f3.disk.block(b) == splice(f2.disk.block(b), s * 64, spec_u64_to_le_bytes(0))
                    &&& forall|x: u32| x != b ==> #[trigger] f3.disk.block(x) == f2.disk.block(x)
                },
                None => second is None && f3 == f2,
            },
            second matches Some(t2) ==> (f2.dir_sound(pn) ==> exists|j: int|
                0 <= j < f2.dir_entries(pn).len() && f2.dir_entries(pn)[j].0 == t2 && slot_text(
                    f2.dir_entries(pn)[j].1,
                ) == newname && f3.dir_entries(pn) == f2.dir_entries(pn).remove(j)),
            pn1 == (DiskInode { direct_blocks: pn1.direct_blocks, size: pn1.size, ..pn }),
            f3.dir_sound(pn) ==> {
                &&& exists|j: int|
                    0 <= j <= f3.dir_entries(pn).len() && f4.dir_entries(pn1) == f3.dir_entries(pn).insert(
                        j,
                        (t, name_field(newname)),
                    )
                &&& forall|i: int| 0 <= i < 12 && #[trigger] pn1.direct_blocks[i] != 0 ==> 34 <= pn1.direct_blocks[i]
                &&& forall|x: u64| x < 480 && x != pn.ino ==> #[trigger] f4.disk.inode_bytes(x) == f3.disk.inode_bytes(x)
            },
            f4.disk.inode_bytes(newparent) == inode_encoding(pn1),
            f4.has_inode(t) ==> {
                let u = f4.inode(t).ino;
                &&& forall|x: u32| x != inode_block(u) ==> #[trigger] self.disk.block(x) == f4.disk.block(x)
                &&& u < 480 ==> forall|x: u64|
                    x < 480 && x != u ==> #[trigger] self.disk.inode_bytes(x) == f4.disk.inode_bytes(x)
                &&& 0 < u < 1024 ==> self.has_inode(u) && self.inode(u) == (DiskInode { parent: newparent, ..f4.inode(t) })
            },
            !f4.has_inode(t) ==> self == f4,
            valid_utf8(name),
            exists|j: int|
                0 <= j < f0.dir_entries(po).len() && f0.dir_entries(po)[j].0 == t && slot_text(f0.dir_entries(po)[j].1)
                    == name && f1.dir_entries(po) == f0.dir_entries(po).remove(j),
            f2.has_inode(parent) && f2.inode(parent) == po,
            forall|x: u32|
                34 <= x < BACKUP_SUPERBLOCK && bitmap_bit(f3.disk.block(1), x as int) && (forall|i: int|
                    0 <= i < 12 ==> #[trigger] pn.direct_blocks[i] != x) ==> #[trigger] f4.disk.block(x) == f3.disk.block(x),
        ensures
            self.lookup_target(newparent, newname) == Some(t),
            self.inode(t) == (DiskInode { parent: newparent, ..f0.inode(t) }),
            self.has_inode(parent),
            self.inode(parent) == po,
            exists|j: int|
                0 <= j < f0.dir_entries(po).len() && f0.dir_entries(po)[j].0 == t && entry_text(f0.dir_entries(po)[j].1)
                    == name && self.dir_entries(self.inode(parent)) == f0.dir_entries(po).remove(j),
    {
        let (k, s) = f0.remove_place(po, name, 0)->0;
        let bo = po.direct_blocks[k];
        f0.lemma_remove_place_block(po, name, 0);
        assert(bo >= 34);
        assert(inode_block(parent) < 34);
        assert(inode_block(t) < 34);
        assert(inode_block(newparent) < 34);
        let e0 = f0.dir_entries(pn);
        // the new parent's entries are untouched by the first two steps
        assert forall|i: int| 0 <= i < 12 && #[trigger] pn.direct_blocks@[i] != 0 implies f0.disk.block(
            pn.direct_blocks@[i],
        ) == f2.disk.block(pn.direct_blocks@[i]) by {
            assert(pn.direct_blocks[i] >= 34);
            assert(po.direct_blocks[k] != pn.direct_blocks[i]);
        }
        crate::mount_dir::lemma_entries_frame_nonzero(f0, f2, pn.direct_blocks@);
        assert(f2.dir_blocks(pn) =~= f0.dir_blocks(pn));
        assert(f2.dir_entries(pn) == e0);
        assert(f2.disk.block(1) == f0.disk.block(1));
        assert(f2.dir_sound(pn));
        f2.lemma_remove_place_block(pn, newname, 0);
        assert(f3.disk.block(1) == f2.disk.block(1));
        assert(f3.dir_sound(pn));
        let e3 = f3.dir_entries(pn);
        assert forall|i: int| 0 <= i < e3.len() implies entry_text(#[trigger] e3[i].1) != newname by {
            if second is Some {
                let t2 = second->0;
                let j = choose|j: int|
                    0 <= j < e0.len() && e0[j].0 == t2 && slot_text(e0[j].1) == newname && e3 == e0.remove(j);
                assert(entry_text(e0[j].1) == newname);
                if i < j {
                    assert(e3[i] == e0[i]);
                } else {
                    assert(e3[i] == e0[i + 1]);
                }
            } else {
                if entry_text(e3[i].1) == newname {
                    assert(slot_text(e3[i].1) == newname);
                    f2.lemma_remove_place_finds(pn, newname, i);
                }
            }
        }
        let jc = choose|j: int| 0 <= j <= e3.len() && f4.dir_entries(pn1) == e3.insert(j, (t, name_field(newname)));
        // the moved inode's record is untouched up to `f4`
        assert(f1.disk.inode_bytes(t) == f0.disk.inode_bytes(t));
        assert(f2.disk.inode_bytes(t) == f1.disk.inode_bytes(t));
        assert(f3.disk.inode_bytes(t) == f2.disk.inode_bytes(t)) by {
            if f2.remove_place(pn, newname, 0) is Some {
                let (k2, s2) = f2.remove_place(pn, newname, 0)->0;
                assert(pn.direct_blocks[k2] >= 34);
                assert(f3.disk.block(inode_block(t)) == f2.disk.block(inode_block(t)));
            }
        }
        assert(pn.ino == newparent);
        assert(f4.disk.inode_bytes(t) == f0.disk.inode_bytes(t));
        assert(f4.has_inode(t));
        assert(f4.inode(t) == f0.inode(t));
        lemma_encoding_stored(pn1);
        assert(self.disk.inode_bytes(newparent) == f4.disk.inode_bytes(newparent));
        assert(self.has_inode(newparent));
        lemma_inode_stored_unique(self.disk.inode_bytes(newparent), self.inode(newparent), pn1);
        assert forall|i: int| 0 <= i < 12 && #[trigger] pn1.direct_blocks@[i] != 0 implies f4.disk.block(
            pn1.direct_blocks@[i],
        ) == self.disk.block(pn1.direct_blocks@[i]) by {
            assert(pn1.direct_blocks[i] >= 34);
        }
        crate::mount_dir::lemma_entries_frame_nonzero(f4, self, pn1.direct_blocks@);
        assert(self.dir_blocks(pn1) =~= f4.dir_blocks(pn1));
        assert(self.has_inode(t));
        crate::mount_dir::lemma_entry_text_field(newname);
        crate::mount_dir::lemma_first_hit_insert(self, e3, jc, t, name_field(newname), newname, 0);
        // the old parent: its record stays, and its blocks keep what the
        // removal left
        assert(f3.disk.inode_bytes(parent) == f2.disk.inode_bytes(parent)) by {
            if f2.remove_place(pn, newname, 0) is Some {
                let (k2, s2) = f2.remove_place(pn, newname, 0)->0;
                assert(pn.direct_blocks[k2] >= 34);
                assert(f3.disk.block(inode_block(parent)) == f2.disk.block(inode_block(parent)));
            }
        }
        assert(self.disk.inode_bytes(parent) == f2.disk.inode_bytes(parent));
        assert(self.has_inode(parent));
        assert(self.inode(parent) == po);
        let ep = f0.dir_entries(po);
        let jp = choose|j: int|
            0 <= j < ep.len() && ep[j].0 == t && slot_text(ep[j].1) == name && f1.dir_entries(po) == ep.remove(j);
        assert forall|i: int| 0 <= i < 12 && #[trigger] po.direct_blocks@[i] != 0 implies f1.disk.block(
            po.direct_blocks@[i],
        ) == self.disk.block(po.direct_blocks@[i]) by {
            let x = po.direct_blocks[i];
            assert(34 <= x < BACKUP_SUPERBLOCK);
            assert(f2.disk.block(x) == f1.disk.block(x));
            assert forall|m: int| 0 <= m < 12 implies #[trigger] pn.direct_blocks[m] != x by {}
            assert(f3.disk.block(x) == f2.disk.block(x)) by {
                if f2.remove_place(pn, newname, 0) is Some {
                    let (k2, s2) = f2.remove_place(pn, newname, 0)->0;
                    assert(pn.direct_blocks[k2] != x);
                }
            }
            assert(bitmap_bit(f0.disk.block(1), x as int));
            assert(f4.disk.block(x) == f3.disk.block(x));
        }
        crate::mount_dir::lemma_entries_frame_nonzero(f1, self, po.direct_blocks@);
        assert(self.dir_blocks(po) =~= f1.dir_blocks(po));
        assert(entry_text(ep[jp].1) == name);
    }

    /// Within one sound directory, after the entry named `name` for `t` is
    /// removed, the entry named `newname`, if one is left, is removed too,
    /// and an entry `newname` for `t` is added (the record going from `pd`
    /// to `pd1`), a lookup of `newname` finds `t` when `t` exists.
    proof fn lemma_renamed_found(
        self,
        f0: LionFS,
        fa: LionFS,
        fb: LionFS,
        pd: DiskInode,
        pd1: DiskInode,
        parent: u64,
        name: Seq<u8>,
        newname: Seq<u8>,
        t: u64,
        second: Option<u64>,
    )
        requires
            f0.create_sound(parent, newname) || f0.replace_sound(parent, newname),
            pd == f0.inode(parent),
            valid_utf8(newname),
            valid_utf8(name),
            f0.remove_place(pd, name, 0) matches Some((k, s)) && t == slot_ino(f0.disk.block(pd.direct_blocks[k]), s)
                && fa.disk.block(pd.direct_blocks[k]) == splice(
                f0.disk.block(pd.direct_blocks[k]),
                s * 64,
                spec_u64_to_le_bytes(0),
            ) && forall|x: u32| x != pd.direct_blocks[k] ==> #[trigger] fa.disk.block(x) == f0.disk.block(x),
            exists|j: int|
                0 <= j < f0.dir_entries(pd).len() && f0.dir_entries(pd)[j].0 == t && slot_text(f0.dir_entries(pd)[j].1)
                    == name && fa.dir_entries(pd) == f0.dir_entries(pd).remove(j),
            match fa.remove_place(pd, newname, 0) {
                Some((k, s)) => second is Some && forall|x: u32|
                    x != pd.direct_blocks[k] ==> #[trigger] fb.disk.block(x) == fa.disk.block(x),
                None => second is None && fb == fa,
            },
            second matches Some(t2) ==> (fa.dir_sound(pd) ==> exists|j: int|
                0 <= j < fa.dir_entries(pd).len() && fa.dir_entries(pd)[j].0 == t2 && slot_text(
                    fa.dir_entries(pd)[j].1,
                ) == newname && fb.dir_entries(pd) == fa.dir_entries(pd).remove(j)),
            t != 0,
            newname.len() <= 56,
            pd1.kind == pd.kind,
            pd1.indirect_block == 0,
            fb.dir_sound(pd) ==> exists|j: int|
                0 <= j <= fb.dir_entries(pd).len() && self.dir_entries(pd1) == fb.dir_entries(pd).insert(
                    j,
                    (t, name_field(newname)),
                ),
            self.disk.inode_bytes(parent) == inode_encoding(pd1),
            fb.dir_sound(pd) ==> forall|x: u64|
                x < 480 && x != parent ==> #[trigger] self.disk.inode_bytes(x) == fb.disk.inode_bytes(x),
        ensures
            f0.has_inode(t) && t < 480 ==> self.lookup_target(parent, newname) == Some(t),
    {
        let (k, s) = f0.remove_place(pd, name, 0)->0;
        let bk = pd.direct_blocks[k];
        let e0 = f0.dir_entries(pd);
        let j0 = choose|j: int|
            0 <= j < e0.len() && e0[j].0 == t && slot_text(e0[j].1) == name && fa.dir_entries(pd) == e0.remove(j);
        let ea = fa.dir_entries(pd);
        let created = f0.create_sound(parent, newname);
        f0.lemma_remove_place_block(pd, name, 0);
        assert(bk >= 34);
        assert(fa.reserved_in_use()) by {
            assert(fa.disk.block(1) == f0.disk.block(1));
        }
        assert(fa.direct_blocks_sound(pd)) by {
            assert(fa.disk.block(1) == f0.disk.block(1));
        }
        assert(fa.dir_sound(pd));
        fa.lemma_remove_place_block(pd, newname, 0);
        assert(fb.disk.block(1) == fa.disk.block(1));
        assert(fb.dir_sound(pd));
        let eb = fb.dir_entries(pd);
        assert forall|i: int| 0 <= i < eb.len() implies entry_text(#[trigger] eb[i].1) != newname by {
            if second is Some {
                let t2 = second->0;
                let j = choose|j: int|
                    0 <= j < ea.len() && ea[j].0 == t2 && slot_text(ea[j].1) == newname && eb == ea.remove(j);
                assert(entry_text(ea[j].1) == newname);
                let ia = if i < j {
                    i
                } else {
                    i + 1
                };
                assert(eb[i] == ea[ia]);
                let i0 = if ia < j0 {
                    ia
                } else {
                    ia + 1
                };
                let jj0 = if j < j0 {
                    j
                } else {
                    j + 1
                };
                assert(ea[ia] == e0[i0]);
                assert(ea[j] == e0[jj0]);
                assert(i0 != jj0);
            } else {
                assert(eb == ea);
                let i0 = if i < j0 {
                    i
                } else {
                    i + 1
                };
                assert(ea[i] == e0[i0]);
                if !created && entry_text(ea[i].1) == newname {
                    assert(slot_text(ea[i].1) == newname);
                    fa.lemma_remove_place_finds(pd, newname, i);
                }
            }
        }
        let jc = choose|j: int| 0 <= j <= eb.len() && self.dir_entries(pd1) == eb.insert(j, (t, name_field(newname)));
        crate::mount_dir::lemma_entry_text_field(newname);
        lemma_encoding_stored(pd1);
        assert(self.has_inode(parent));
        lemma_inode_stored_unique(self.disk.inode_bytes(parent), self.inode(parent), pd1);
        if f0.has_inode(t) && t < 480 {
            if t != parent {
                assert(inode_block(t) < 34);
                assert(fa.disk.inode_bytes(t) == f0.disk.inode_bytes(t));
                assert(fb.disk.inode_bytes(t) == fa.disk.inode_bytes(t)) by {
                    if fa.remove_place(pd, newname, 0) is Some {
                        let (k2, s2) = fa.remove_place(pd, newname, 0)->0;
                        assert(pd.direct_blocks[k2] >= 34);
                        assert(fb.disk.block(inode_block(t)) == fa.disk.block(inode_block(t)));
                    }
                }
                assert(self.disk.inode_bytes(t) == f0.disk.inode_bytes(t));
            }
            assert(self.has_inode(t));
            crate::mount_dir::lemma_first_hit_insert(self, eb, jc, t, name_field(newname), newname, 0);
        }
    }

    /// Where `remove_place` finds an entry, it is a used slot of a nonzero
    /// direct block.
    proof fn lemma_remove_place_block(self, d: DiskInode, name: Seq<u8>, k: int)
        requires
            0 <= k,
        ensures
            self.remove_place(d, name, k) matches Some((i, s)) ==> k <= i < 12 && d.direct_blocks[i] != 0 && 0 <= s < 63,
        decreases 12 - k,
    {
        if k < 12 {
            if d.direct_blocks[k] == 0 {
                self.lemma_remove_place_block(d, name, k + 1);
            } else {
                let p = self.disk.block(d.direct_blocks[k]);
                crate::mount_dir::lemma_named_slot_bound(p, name, 0);
                if named_slot_from(p, name, 0) is None {
                    self.lemma_remove_place_block(d, name, k + 1);
                }
            }
        }
    }

    /// Removing an entry (as `remove_dir_entry` does) only frees a slot, so
    /// every free slot of every directory stays free.
    proof fn lemma_removal_keeps_free(self, g: LionFS, e: DiskInode, name: Seq<u8>, d: DiskInode)
        requires
            match self.remove_place(e, name, 0) {
                Some((k, s)) => {
                    let b = e.direct_blocks[k];
                    &&& g.disk.block(b) == splice(self.disk.block(b), s * 64, spec_u64_to_le_bytes(0))
                    &&& forall|x: u32| x != b ==> #[trigger] g.disk.block(x) == self.disk.block(x)
                },
                None => g == self,
            },
        ensures
            self.slots_kept_free(g, d),
    {
        self.lemma_remove_place_block(e, name, 0);
        assert forall|i: int, t: int|
            0 <= i < 12 && d.direct_blocks[i] != 0 && 0 <= t < 63 && slot_ino(self.disk.block(d.direct_blocks[i]), t)
                == 0 implies #[trigger] slot_ino(g.disk.block(d.direct_blocks[i]), t) == 0 by {
            let x = d.direct_blocks[i];
            if let Some((k, s)) = self.remove_place(e, name, 0) {
                if x == e.direct_blocks[k] {
                    self.disk.store.lemma_payload_len(x);
                    crate::mount_dir::lemma_slot_clear(self.disk.block(x), s, t);
                }
            }
        }
    }

    /// Moves the entry named `name` of directory `parent` to `newname` in
    /// `newparent`, replacing an entry of that name there. Between two
    /// directories, the moved inode's parent is updated; when the new
    /// directory has no room, the entry goes back to the old one.
    pub fn rename(&mut self, parent: u64, name: &str, newparent: u64, newname: &str) -> (r: Result<(), Errno>)
        requires
            old(self).has_inode(parent) ==> old(self).inode(parent).size + PAYLOAD_SIZE <= u64::MAX,
            old(self).has_inode(newparent) ==> old(self).inode(newparent).size + PAYLOAD_SIZE <= u64::MAX,
        ensures
            old(self).disk.store.changes_listed(final(self).disk.store),
            !(old(self).has_inode(parent) && old(self).has_inode(newparent)) ==> r == Err::<(), Errno>(Errno::NoEntry)
                && *final(self) == *old(self),
            old(self).has_inode(parent) && old(self).has_inode(newparent) && old(self).remove_place(
                old(self).inode(parent),
                name.spec_bytes(),
                0,
            ) is None ==> r == Err::<(), Errno>(Errno::NoEntry) && *final(self) == *old(self),
            old(self).has_inode(parent) && old(self).has_inode(newparent) && old(self).remove_place(
                old(self).inode(parent),
                name.spec_bytes(),
                0,
            ) is Some && newname.spec_bytes().len() > 56 ==> r == Err::<(), Errno>(Errno::NameTooLong),
            r matches Err(e) ==> e == Errno::NoEntry || e == Errno::NoSpace || e == Errno::NameTooLong,
            r is Ok ==> old(self).has_inode(parent) && old(self).has_inode(newparent) && old(self).remove_place(
                old(self).inode(parent),
                name.spec_bytes(),
                0,
            ) is Some,
            parent == newparent && r is Ok && (old(self).create_sound(parent, newname.spec_bytes()) || old(
                self,
            ).replace_sound(parent, newname.spec_bytes())) ==> match old(
                self,
            ).remove_place(old(self).inode(parent), name.spec_bytes(), 0) {
                Some((k, s)) => {
                    let t = slot_ino(old(self).disk.block(old(self).inode(parent).direct_blocks[k]), s);
                    old(self).has_inode(t) && t < 480 ==> final(self).lookup_target(parent, newname.spec_bytes())
                        == Some(t)
                },
                None => true,
            },
            parent != newparent && r is Ok && old(self).has_inode(parent) && old(self).inode(parent).ino == parent
                && old(self).dir_sound(old(self).inode(parent)) && old(self).replace_sound(newparent, newname.spec_bytes())
                && Self::blocks_apart(old(self).inode(parent), old(self).inode(newparent)) ==> match old(
                self,
            ).remove_place(old(self).inode(parent), name.spec_bytes(), 0) {
                Some((k, s)) => {
                    let t = slot_ino(old(self).disk.block(old(self).inode(parent).direct_blocks[k]), s);
                    let es = old(self).dir_entries(old(self).inode(parent));
                    old(self).has_inode(t) && t < 480 && t != parent && t != newparent && old(self).inode(t).ino == t
                        ==> {
                        &&& final(self).lookup_target(newparent, newname.spec_bytes()) == Some(t)
                        &&& final(self).inode(t) == (DiskInode { parent: newparent, ..old(self).inode(t) })
                        &&& final(self).has_inode(parent)
                        &&& final(self).inode(parent) == old(self).inode(parent)
                        &&& exists|j: int|
                            0 <= j < es.len() && es[j].0 == t && entry_text(es[j].1) == name.spec_bytes()
                                && final(self).dir_entries(final(self).inode(parent)) == es.remove(j)
                    }
                },
                None => true,
            },
            old(self).has_inode(parent) && old(self).has_inode(newparent) && old(self).remove_place(
                old(self).inode(parent),
                name.spec_bytes(),
                0,
            ) is Some && old(self).dir_sound(old(self).inode(parent)) && old(self).dir_sound(old(self).inode(newparent))
                && old(self).entry_fits(old(self).inode(newparent), newname.spec_bytes()) ==> r is Ok,
    {
        let ghost s0 = self.disk.store;
        let ghost f_in = *self;
        if parent == newparent {
            let mut p_inode = match self.disk.read_inode(parent) {
                Some(inode) => inode,
                None => return Err(Errno::NoEntry),
            };
            let ghost f0 = *self;
            let ghost pd = p_inode;
            let target_ino = match self.remove_dir_entry(&p_inode, name) {
                Some(t) => t,
                None => return Err(Errno::NoEntry),
            };
            let ghost s1 = self.disk.store;
            let ghost fa = *self;
            let second = self.remove_dir_entry(&p_inode, newname);
            let ghost s2 = self.disk.store;
            let ghost fb = *self;
            proof {
                f0.lemma_removal_keeps_free(fa, pd, name.spec_bytes(), pd);
                fa.lemma_removal_keeps_free(fb, pd, newname.spec_bytes(), pd);
                if f0.dir_sound(pd) {
                    f0.lemma_remove_place_block(pd, name.spec_bytes(), 0);
                    fa.lemma_remove_place_block(pd, newname.spec_bytes(), 0);
                    assert(f0.slots_kept_free(fb, pd)) by {
                        assert forall|i: int, t: int|
                            0 <= i < 12 && pd.direct_blocks[i] != 0 && 0 <= t < 63 && slot_ino(
                                f0.disk.block(pd.direct_blocks[i]),
                                t,
                            ) == 0 implies #[trigger] slot_ino(fb.disk.block(pd.direct_blocks[i]), t) == 0 by {
                            assert(slot_ino(fa.disk.block(pd.direct_blocks[i]), t) == 0);
                        }
                    }
                    f0.lemma_add_place_kept(fb, pd, 0);
                    assert(fb.disk.block(1) == f0.disk.block(1));
                }
            }
            let res = self.add_dir_entry(&mut p_inode, newname, target_ino);
            proof {
                BlockStore::lemma_changes_listed_trans(s0, s1, s2);
                BlockStore::lemma_changes_listed_trans(s0, s2, self.disk.store);
                if res is Ok && (f0.create_sound(parent, newname.spec_bytes()) || f0.replace_sound(
                    parent,
                    newname.spec_bytes(),
                )) {
                    vstd::utf8::encode_utf8_valid_utf8(newname@);
                    vstd::utf8::encode_utf8_valid_utf8(name@);
                    self.lemma_renamed_found(
                        f0,
                        fa,
                        fb,
                        pd,
                        p_inode,
                        parent,
                        name.spec_bytes(),
                        newname.spec_bytes(),
                        target_ino,
                        second,
                    );
                }
            }
            return res;
        }
        let mut old_p = match self.disk.read_inode(parent) {
            Some(inode) => inode,
            None => return Err(Errno::NoEntry),
        };
        let mut new_p = match self.disk.read_inode(newparent) {
            Some(inode) => inode,
            None => return Err(Errno::NoEntry),
        };
        let ghost po = old_p;
        let ghost pn = new_p;
        let target_ino = match self.remove_dir_entry(&old_p, name) {
            Some(t) => t,
            None => return Err(Errno::NoEntry),
        };
        let ghost s1 = self.disk.store;
        let ghost f1 = *self;
        self.disk.write_inode(&old_p);
        let ghost s2 = self.disk.store;
        let ghost f2 = *self;
        let second = self.remove_dir_entry(&new_p, newname);
        let ghost s3 = self.disk.store;
        let ghost f3 = *self;
        proof {
            BlockStore::lemma_changes_listed_trans(s0, s1, s2);
            BlockStore::lemma_changes_listed_trans(s0, s2, s3);
            f_in.lemma_removal_keeps_free(f1, old_p, name.spec_bytes(), new_p);
            f2.lemma_removal_keeps_free(f3, new_p, newname.spec_bytes(), new_p);
            if f_in.dir_sound(old_p) && f_in.dir_sound(new_p) {
                f_in.lemma_remove_place_block(old_p, name.spec_bytes(), 0);
                f2.lemma_remove_place_block(new_p, newname.spec_bytes(), 0);
                assert(inode_block(old_p.ino) < 34);
                assert(f_in.slots_kept_free(f3, new_p)) by {
                    assert forall|i: int, t: int|
                        0 <= i < 12 && new_p.direct_blocks[i] != 0 && 0 <= t < 63 && slot_ino(
                            f_in.disk.block(new_p.direct_blocks[i]),
                            t,
                        ) == 0 implies #[trigger] slot_ino(f3.disk.block(new_p.direct_blocks[i]), t) == 0 by {
                        let x = new_p.direct_blocks[i];
                        assert(slot_ino(f1.disk.block(x), t) == 0);
                        assert(x >= 34);
                        assert(f2.disk.block(x) == f1.disk.block(x));
                    }
                }
                f_in.lemma_add_place_kept(f3, new_p, 0);
                assert(f3.disk.block(1) == f_in.disk.block(1));
            }
        }
        if let Err(e) = self.add_dir_entry(&mut new_p, newname, target_ino) {
            let ghost s4 = self.disk.store;
            let _ = self.add_dir_entry(&mut old_p, name, target_ino);
            proof {
                BlockStore::lemma_changes_listed_trans(s0, s3, s4);
                BlockStore::lemma_changes_listed_trans(s0, s4, self.disk.store);
            }
            return Err(e);
        }
        let ghost s4 = self.disk.store;
        let ghost f4 = *self;
        if let Some(mut target_inode) = self.disk.read_inode(target_ino) {
            target_inode.parent = newparent;
            self.disk.write_inode(&target_inode);
        }
        proof {
            BlockStore::lemma_changes_listed_trans(s0, s3, s4);
            BlockStore::lemma_changes_listed_trans(s0, s4, self.disk.store);
            if f_in.dir_sound(po) && po.ino == parent && f_in.replace_sound(newparent, newname.spec_bytes())
                && Self::blocks_apart(po, pn) && f_in.has_inode(target_ino) && target_ino < 480 && target_ino != parent
                && target_ino != newparent && f_in.inode(target_ino).ino == target_ino {
                vstd::utf8::encode_utf8_valid_utf8(newname@);
                vstd::utf8::encode_utf8_valid_utf8(name@);
                assert forall|x: u32|
                    34 <= x < BACKUP_SUPERBLOCK && bitmap_bit(f3.disk.block(1), x as int) && (forall|i: int|
                        0 <= i < 12 ==> #[trigger] pn.direct_blocks[i] != x) implies #[trigger] f4.disk.block(x)
                    == f3.disk.block(x) by {
                    let place = f3.add_place(pn, 0);
                    f3.lemma_add_place(pn, 0);
                    assert(inode_block(pn.ino) < 34);
                    if 0 <= place.0 < 12 {
                        assert(pn.direct_blocks[place.0] != x);
                    }
                }
                self.lemma_moved_found(
                    f_in,
                    f1,
                    f2,
                    f3,
                    f4,
                    po,
                    pn,
                    new_p,
                    parent,
                    newparent,
                    name.spec_bytes(),
                    newname.spec_bytes(),
                    target_ino,
                    second,
                );
            }
        }
        Ok(())
    }

    /// Sets the size of inode `ino` when `size` is given (a smaller size
    /// frees the blocks wholly past it) and its modification time to now.
    pub fn setattr(&mut self, ino: u64, size: Option<u64>) -> (r: Result<DiskInode, Errno>)
        requires
            old(self).has_inode(ino) ==> match size {
                Some(n) => n < old(self).inode(ino).size ==> n + PAYLOAD_SIZE - 1 <= u64::MAX,
                None => true,
            },
        ensures
            old(self).disk.store.changes_listed(final(self).disk.store),
            !old(self).has_inode(ino) ==> r == Err::<DiskInode, Errno>(Errno::NoEntry) && *final(self) == *old(self),
            old(self).has_inode(ino) ==> (r matches Ok(e) && {
                let d = old(self).inode(ino);
                let shrink = match size {
                    Some(n) => n < d.size,
                    None => false,
                };
                let start = match size {
                    Some(n) => (((n + PAYLOAD_SIZE - 1) / PAYLOAD_SIZE as int) as usize) as int,
                    None => 0,
                };
                &&& e.size == (match size {
                    Some(n) => n,
                    None => d.size,
                })
                &&& e == (DiskInode {
                    size: e.size,
                    mtime: e.mtime,
                    direct_blocks: e.direct_blocks,
                    indirect_block: e.indirect_block,
                    ..d
                })
                &&& !shrink ==> e.direct_blocks == d.direct_blocks && e.indirect_block == d.indirect_block
                &&& shrink ==> forall|i: int|
                    0 <= i < 12 ==> #[trigger] e.direct_blocks[i] == if i >= start {
                        0
                    } else {
                        d.direct_blocks[i]
                    }
                &&& shrink ==> e.indirect_block == if d.indirect_block != 0 && start <= 12 {
                    0
                } else {
                    d.indirect_block
                }
                &&& shrink && d.indirect_block != 1 && d.indirect_block != BACKUP_SUPERBLOCK && inode_block(d.ino) != 1
                    ==> forall|c: int|
                    0 <= c < TOTAL_BLOCKS ==> #[trigger] bitmap_bit(final(self).disk.block(1), c) == (bitmap_bit(
                        old(self).disk.block(1),
                        c,
                    ) && !old(self).frees(d, start, c))
                &&& 0 < d.ino < 1024 ==> final(self).has_inode(d.ino) && final(self).inode(d.ino) == e
            }),
    {
        let mut inode = match self.disk.read_inode(ino) {
            Some(inode) => inode,
            None => return Err(Errno::NoEntry),
        };
        let ghost s0 = self.disk.store;
        if let Some(new_size) = size {
            if new_size < inode.size {
                let start_idx = (#[verifier::truncate] (((new_size + (PAYLOAD_SIZE as u64 - 1)) / PAYLOAD_SIZE as u64) as usize));
                self.free_file_blocks(&mut inode, start_idx);
            }
            inode.size = new_size;
        }
        inode.mtime = unix_now_secs();
        let ghost s1 = self.disk.store;
        self.disk.write_inode(&inode);
        proof {
            BlockStore::lemma_changes_listed_trans(s0, s1, self.disk.store);
            assert(inode.kind != 0);
        }
        Ok(inode)
    }

    /// The filesystem on `disk`; a volume without a root directory gets one
    /// (inode 1, its own parent) with the first free block.
    pub fn new(disk: DiskManager) -> (r: Self)
        ensures
            disk.store.changes_listed(r.disk.store),
            (LionFS { disk }).reserved_in_use() ==> r.reserved_in_use(),
            disk.has_inode(1) || disk.blocks_full() ==> forall|x: u32| #[trigger] r.disk.block(x) == disk.block(x),
            !disk.has_inode(1) && !disk.blocks_full() ==> {
                &&& r.has_inode(1)
                &&& disk.first_free_block(r.inode(1).direct_blocks[0])
                &&& is_new_inode_with_first_block(r.inode(1), 1, 1, KIND_DIR, 0o777, 1000, 1000)
            },
    {
        let ghost init = disk;
        let mut disk = disk;
        if disk.read_inode(1).is_none() {
            let mut root_inode = DiskInode::new(1, 1, KIND_DIR, 0o777, 1000, 1000);
            let ghost s0 = disk.store;
            if let Some(block) = disk.allocate_block() {
                proof {
                    let f0 = LionFS { disk: init };
                    if f0.reserved_in_use() {
                        assert(bitmap_bit(f0.disk.block(1), 1));
                        assert forall|c: int| (0 <= c < 34 || c == BACKUP_SUPERBLOCK) implies #[trigger] bitmap_bit(
                            disk.block(1),
                            c,
                        ) by {
                            assert(bitmap_bit(f0.disk.block(1), c));
                        }
                    }
                }
                root_inode.direct_blocks[0] = block;
                let ghost s1 = disk.store;
                let ghost bm = disk.block(1);
                disk.write_inode(&root_inode);
                proof {
                    BlockStore::lemma_changes_listed_trans(s0, s1, disk.store);
                    assert(disk.block(1) == bm);
                }
            }
        }
        LionFS { disk }
    }
}

} // verus!
