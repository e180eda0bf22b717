//! Directory entries by name hash, in the directory tree.
use crate::btree::tree::{BTree, BlockAllocator};
use crate::codec::{array254, get_array254, get_u64, lemma_array254, put_bytes, put_u64, put_u8, BTreeItem};
use crate::error::FsError;
use crate::transaction::TxContext;
use vstd::bytes::*;
use crate::btree::tree::empty_leaf_image;
use vstd::prelude::*;
use vstd::string::StringSliceAdditionalSpecFns;

verus! {


pub const DIR_TREE_NODE_TYPE: u32 = 2;

/// A directory entry: the inode, its type, and the name (its first `name_len` bytes).
#[derive(Debug, Clone, Copy)]
pub struct DirTreeValue {
    pub ino: u64,
    pub file_type: u8,
    pub name_len: u8,
    pub name: [u8; 254],
}

impl BTreeItem for DirTreeValue {
    open spec fn spec_size() -> nat {
        264
    }

    open spec fn spec_decode(bytes: Seq<u8>) -> DirTreeValue {
        DirTreeValue {
            ino: spec_u64_from_le_bytes(bytes.subrange(0, 8)),
            file_type: bytes[8],
            name_len: bytes[9],
            name: array254(bytes.subrange(10, 264)),
        }
    }

    proof fn lemma_size_bounds() {
    }

    fn size() -> (n: usize) {
        264
    }

    #[verifier::spinoff_prover]
    #[verifier::rlimit(100)]
    fn encode_into(&self, out: &mut Vec<u8>) {
        let ghost start = out@;
        let ghost s = start.len() as int;
        put_u64(out, self.ino);
        put_u8(out, self.file_type);
        put_u8(out, self.name_len);
        put_bytes(out, self.name.as_slice());
        proof {
            lemma_auto_spec_u64_to_from_le_bytes();
            lemma_auto_spec_u32_to_from_le_bytes();
            lemma_auto_spec_u16_to_from_le_bytes();
            let e = out@.subrange(s, out@.len() as int);
            assert(out@.subrange(0, s) =~= start);
            assert(e.subrange(0, 8) =~= spec_u64_to_le_bytes(self.ino));
            assert(e[8] == self.file_type);
            assert(e[9] == self.name_len);
            assert(e.subrange(10, 264) =~= self.name@);
            lemma_array254(self.name);
            assert(DirTreeValue::spec_decode(e) == *self);
        }
    }

    fn decode_from(bytes: &[u8], off: usize) -> (r: DirTreeValue) {
        let _len = bytes.len();
        let ghost e = bytes@.subrange(off as int, off + 264);
        let ino = get_u64(bytes, off + 0);
        let file_type = bytes[off + 8];
        let name_len = bytes[off + 9];
        let name = get_array254(bytes, off + 10);
        let r = DirTreeValue { ino, file_type, name_len, name };
        proof {
            assert(e.subrange(0, 8) =~= bytes@.subrange(off + 0, off + 8));
            assert(e[8] == bytes@[off + 8]);
            assert(e[9] == bytes@[off + 9]);
            assert(e.subrange(10, 264) =~= bytes@.subrange(off + 10, off + 264));
        }
        r
    }
}
pub const FNV_OFFSET_BASIS: u64 = 14695981039346656037;

pub const FNV_PRIME: u64 = 1099511628211;

/// The 64-bit FNV-1a hash of `bytes`.
pub open spec fn fnv1a(bytes: Seq<u8>) -> u64
    decreases bytes.len(),
{
    if bytes.len() == 0 {
        FNV_OFFSET_BASIS
    } else {
        let h = fnv1a(bytes.drop_last()) ^ (bytes.last() as u64);
        ((h as nat * FNV_PRIME as nat) % 0x1_0000_0000_0000_0000nat) as u64
    }
}

/// The key of a name in the directory tree.
pub fn hash_name(name: &str) -> (r: u64)
    ensures
        r == fnv1a(name.spec_bytes()),
{
    let bytes = name.as_bytes();
    let mut hash: u64 = FNV_OFFSET_BASIS;
    let mut i: usize = 0;
    while i < bytes.len()
        invariant
            i <= bytes@.len(),
            hash == fnv1a(bytes@.subrange(0, i as int)),
        decreases bytes@.len() - i,
    {
        proof {
            let next = bytes@.subrange(0, i + 1);
            assert(next.drop_last() =~= bytes@.subrange(0, i as int));
            assert(next.last() == bytes@[i as int]);
        }
        hash = hash ^ (bytes[i] as u64);
        hash = hash.wrapping_mul(FNV_PRIME);
        i = i + 1;
    }
    assert(bytes@.subrange(0, bytes@.len() as int) =~= bytes@);
    hash
}

/// `name` in a 254-byte field, followed by zeros.
pub open spec fn padded_name(name: Seq<u8>) -> Seq<u8> {
    name + Seq::new((254 - name.len()) as nat, |i: int| 0u8)
}

/// The entry stored for `name`.
pub open spec fn dir_entry_value(name: Seq<u8>, ino: u64, file_type: u8) -> DirTreeValue {
    DirTreeValue { ino, file_type, name_len: name.len() as u8, name: array254(padded_name(name)) }
}

pub struct DirectoryTree {
    pub btree: BTree<u64, DirTreeValue>,
}

impl DirectoryTree {
    pub fn new(root_block: u64) -> (r: Self)
        ensures
            r.btree.root_block == root_block,
            r.btree.tree_type() == DIR_TREE_NODE_TYPE,
    {
        DirectoryTree { btree: BTree::new(root_block, DIR_TREE_NODE_TYPE) }
    }

    /// Writes an empty directory tree at `root_block`.
    pub fn init_empty(ctx: &mut TxContext, root_block: u64) -> (r: Result<(), FsError>)
        ensures
            r is Ok,
            final(ctx).block(root_block) == empty_leaf_image(DIR_TREE_NODE_TYPE),
            forall|x: u64| x != root_block ==> #[trigger] final(ctx).block(x) == old(ctx).block(x),
            forall|t: BTree<u64, DirTreeValue>|
                #[trigger] t.tree_type() == DIR_TREE_NODE_TYPE && t.root_block == root_block && root_block != 0 ==> {
                    &&& t.inv(*final(ctx))
                    &&& forall|k: u64| #[trigger] t.get(*final(ctx), k) is None
                },
    {
        BTree::<u64, DirTreeValue>::init_empty(ctx, root_block, DIR_TREE_NODE_TYPE)
    }

    /// The entry stored under the hash of `name`. Names with the same hash
    /// share one entry.
    pub fn lookup(&self, ctx: &TxContext, name: &str) -> (r: Result<Option<DirTreeValue>, FsError>)
        requires
            self.btree.inv(*ctx),
        ensures
            r == Ok::<Option<DirTreeValue>, FsError>(self.btree.get(*ctx, fnv1a(name.spec_bytes()))),
    {
        let key = hash_name(name);
        self.btree.lookup(ctx, &key)
    }

    /// Stores the entry for `name` under its hash; names longer than 254
    /// bytes are refused.
    pub fn insert<A: BlockAllocator>(
        &mut self,
        ctx: &mut TxContext,
        name: &str,
        ino: u64,
        file_type: u8,
        alloc: &mut A,
    ) -> (r: Result<(), FsError>)
        requires
            old(self).btree.inv(*old(ctx)),
            old(self).btree.guarded_by(*old(ctx), *old(alloc)),
        ensures
            name.spec_bytes().len() > 254 ==> r == Err::<(), FsError>(FsError::InvalidInput) && *final(self)
                == *old(self) && *final(ctx) == *old(ctx) && *final(alloc) == *old(alloc),
            name.spec_bytes().len() <= 254 && old(alloc).can_supply(old(self).btree.height(*old(ctx)) + 2) ==> r is Ok,
            r is Ok ==> BTree::holds_insert(
                old(self).btree,
                *old(ctx),
                final(self).btree,
                *final(ctx),
                fnv1a(name.spec_bytes()),
                dir_entry_value(name.spec_bytes(), ino, file_type),
            ) && final(self).btree.guarded_by(*final(ctx), *final(alloc)),
    {
        let key = hash_name(name);
        if name.len() > 254 {
            return Err(FsError::InvalidInput);
        }
        let bytes = name.as_bytes();
        let n = bytes.len();
        let mut field = [0u8; 254];
        let mut i: usize = 0;
        while i < n
            invariant
                n == bytes@.len(),
                n <= 254,
                i <= n,
                forall|j: int| 0 <= j < i ==> field[j] == bytes@[j],
                forall|j: int| n <= j < 254 ==> field[j] == 0,
            decreases n - i,
        {
            field[i] = bytes[i];
            i = i + 1;
        }
        let value = DirTreeValue { ino, file_type, name_len: n as u8, name: field };
        proof {
            assert(field@ =~= padded_name(bytes@));
            lemma_array254(field);
            assert(value == dir_entry_value(name.spec_bytes(), ino, file_type));
        }
        self.btree.insert(ctx, key, value, alloc)
    }
}

} // verus!
