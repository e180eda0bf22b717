//! Per-block checksums of file data, in the checksum tree.
use crate::btree::tree::{BTree, BlockAllocator, FailingAllocator};
use crate::codec::{array32, get_array32, get_u64, lemma_array32, put_bytes, put_u64, put_u8, put_zeros, BTreeItem, BTreeKey, KeyOrder};
use crate::error::FsError;
use crate::transaction::TxContext;
use vstd::bytes::*;
use crate::btree::tree::empty_leaf_image;
use vstd::prelude::*;

verus! {


pub const CHECKSUM_TREE_NODE_TYPE: u32 = 5;

/// A block of an object: ordered by object, then by block.
#[derive(Debug, Clone, Copy, PartialEq, Eq, Structural)]
pub struct ChecksumTreeKey {
    pub object_id: u64,
    pub logical_block: u64,
}

impl BTreeItem for ChecksumTreeKey {
    open spec fn spec_size() -> nat {
        16
    }

    open spec fn spec_decode(bytes: Seq<u8>) -> ChecksumTreeKey {
        ChecksumTreeKey {
            object_id: spec_u64_from_le_bytes(bytes.subrange(0, 8)),
            logical_block: spec_u64_from_le_bytes(bytes.subrange(8, 16)),
        }
    }

    proof fn lemma_size_bounds() {
    }

    fn size() -> (n: usize) {
        16
    }

    fn encode_into(&self, out: &mut Vec<u8>) {
        let ghost start = out@;
        let ghost s = start.len() as int;
        put_u64(out, self.object_id);
        put_u64(out, self.logical_block);
        proof {
            lemma_auto_spec_u64_to_from_le_bytes();
            lemma_auto_spec_u32_to_from_le_bytes();
            lemma_auto_spec_u16_to_from_le_bytes();
            let e = out@.subrange(s, out@.len() as int);
            assert(out@.subrange(0, s) =~= start);
            assert(e.subrange(0, 8) =~= spec_u64_to_le_bytes(self.object_id));
            assert(e.subrange(8, 16) =~= spec_u64_to_le_bytes(self.logical_block));
            assert(ChecksumTreeKey::spec_decode(e) == *self);
        }
    }

    fn decode_from(bytes: &[u8], off: usize) -> (r: ChecksumTreeKey) {
        let _len = bytes.len();
        let ghost e = bytes@.subrange(off as int, off + 16);
        let object_id = get_u64(bytes, off + 0);
        let logical_block = get_u64(bytes, off + 8);
        let r = ChecksumTreeKey { object_id, logical_block };
        proof {
            assert(e.subrange(0, 8) =~= bytes@.subrange(off + 0, off + 8));
            assert(e.subrange(8, 16) =~= bytes@.subrange(off + 8, off + 16));
        }
        r
    }
}

impl BTreeKey for ChecksumTreeKey {
    open spec fn rank(self) -> int {
        self.object_id as int * 0x1_0000_0000_0000_0000 + self.logical_block as int
    }

    proof fn lemma_rank_injective(a: ChecksumTreeKey, b: ChecksumTreeKey) {
        if a.rank() == b.rank() {
            assert(a.object_id == b.object_id) by (nonlinear_arith)
                requires
                    a.object_id as int * 0x1_0000_0000_0000_0000 + a.logical_block as int == b.object_id as int
                        * 0x1_0000_0000_0000_0000 + b.logical_block as int,
                    a.logical_block < 0x1_0000_0000_0000_0000,
                    b.logical_block < 0x1_0000_0000_0000_0000,
            {
                if a.object_id < b.object_id {
                    assert(a.object_id as int * 0x1_0000_0000_0000_0000 + 0x1_0000_0000_0000_0000 <= b.object_id as int * 0x1_0000_0000_0000_0000);
                } else if a.object_id > b.object_id {
                    assert(b.object_id as int * 0x1_0000_0000_0000_0000 + 0x1_0000_0000_0000_0000 <= a.object_id as int * 0x1_0000_0000_0000_0000);
                }
            }
        }
    }

    fn compare_key(&self, other: &ChecksumTreeKey) -> (r: KeyOrder) {
        proof {
            let (a, b) = (*self, *other);
            assert(a.object_id < b.object_id ==> a.rank() < b.rank()) by (nonlinear_arith)
                requires
                    a.logical_block < 0x1_0000_0000_0000_0000,
                    b.logical_block < 0x1_0000_0000_0000_0000,
            {
                if a.object_id < b.object_id {
                    assert(a.object_id as int * 0x1_0000_0000_0000_0000 + 0x1_0000_0000_0000_0000 <= b.object_id as int * 0x1_0000_0000_0000_0000);
                }
            }
            assert(a.object_id > b.object_id ==> a.rank() > b.rank()) by (nonlinear_arith)
                requires
                    a.logical_block < 0x1_0000_0000_0000_0000,
                    b.logical_block < 0x1_0000_0000_0000_0000,
            {
                if a.object_id > b.object_id {
                    assert(b.object_id as int * 0x1_0000_0000_0000_0000 + 0x1_0000_0000_0000_0000 <= a.object_id as int * 0x1_0000_0000_0000_0000);
                }
            }
        }
        if self.object_id < other.object_id {
            KeyOrder::Less
        } else if self.object_id > other.object_id {
            KeyOrder::Greater
        } else if self.logical_block < other.logical_block {
            KeyOrder::Less
        } else if self.logical_block == other.logical_block {
            KeyOrder::Equal
        } else {
            KeyOrder::Greater
        }
    }
}

/// Where a block is stored, its checksum and how far it was verified (0 unverified, 1 verified, 2 corrupt). The last 6 bytes of its layout are padding.
#[derive(Debug, Clone, Copy, PartialEq, Eq)]
pub struct ChecksumTreeValue {
    pub physical_block: u64,
    pub checksum_bytes: [u8; 32],
    pub generation: u64,
    pub algorithm_id: u8,
    pub verification_status: u8,
}

impl BTreeItem for ChecksumTreeValue {
    open spec fn spec_size() -> nat {
        56
    }

    open spec fn spec_decode(bytes: Seq<u8>) -> ChecksumTreeValue {
        ChecksumTreeValue {
            physical_block: spec_u64_from_le_bytes(bytes.subrange(0, 8)),
            checksum_bytes: array32(bytes.subrange(8, 40)),
            generation: spec_u64_from_le_bytes(bytes.subrange(40, 48)),
            algorithm_id: bytes[48],
            verification_status: bytes[49],
        }
    }

    proof fn lemma_size_bounds() {
    }

    fn size() -> (n: usize) {
        56
    }

    fn encode_into(&self, out: &mut Vec<u8>) {
        let ghost start = out@;
        let ghost s = start.len() as int;
        put_u64(out, self.physical_block);
        put_bytes(out, self.checksum_bytes.as_slice());
        put_u64(out, self.generation);
        put_u8(out, self.algorithm_id);
        put_u8(out, self.verification_status);
        put_zeros(out, 6);
        proof {
            lemma_auto_spec_u64_to_from_le_bytes();
            lemma_auto_spec_u32_to_from_le_bytes();
            lemma_auto_spec_u16_to_from_le_bytes();
            let e = out@.subrange(s, out@.len() as int);
            assert(out@.subrange(0, s) =~= start);
            assert(e.subrange(0, 8) =~= spec_u64_to_le_bytes(self.physical_block));
            assert(e.subrange(8, 40) =~= self.checksum_bytes@);
            lemma_array32(self.checksum_bytes);
            assert(e.subrange(40, 48) =~= spec_u64_to_le_bytes(self.generation));
            assert(e[48] == self.algorithm_id);
            assert(e[49] == self.verification_status);
            assert(ChecksumTreeValue::spec_decode(e) == *self);
        }
    }

    fn decode_from(bytes: &[u8], off: usize) -> (r: ChecksumTreeValue) {
        let _len = bytes.len();
        let ghost e = bytes@.subrange(off as int, off + 56);
        let physical_block = get_u64(bytes, off + 0);
        let checksum_bytes = get_array32(bytes, off + 8);
        let generation = get_u64(bytes, off + 40);
        let algorithm_id = bytes[off + 48];
        let verification_status = bytes[off + 49];
        let r = ChecksumTreeValue { physical_block, checksum_bytes, generation, algorithm_id, verification_status };
        proof {
            assert(e.subrange(0, 8) =~= bytes@.subrange(off + 0, off + 8));
            assert(e.subrange(8, 40) =~= bytes@.subrange(off + 8, off + 40));
            assert(e.subrange(40, 48) =~= bytes@.subrange(off + 40, off + 48));
            assert(e[48] == bytes@[off + 48]);
            assert(e[49] == bytes@[off + 49]);
        }
        r
    }
}
pub struct ChecksumTree {
    pub btree: BTree<ChecksumTreeKey, ChecksumTreeValue>,
}

impl ChecksumTree {
    pub fn new(root_block: u64) -> (r: Self)
        ensures
            r.btree.root_block == root_block,
            r.btree.tree_type() == CHECKSUM_TREE_NODE_TYPE,
    {
        ChecksumTree { btree: BTree::new(root_block, CHECKSUM_TREE_NODE_TYPE) }
    }

    /// Writes an empty checksum tree at `root_block`.
    pub fn init_empty(ctx: &mut TxContext, root_block: u64) -> (r: Result<(), FsError>)
        ensures
            r is Ok,
            final(ctx).block(root_block) == empty_leaf_image(CHECKSUM_TREE_NODE_TYPE),
            forall|x: u64| x != root_block ==> #[trigger] final(ctx).block(x) == old(ctx).block(x),
            forall|t: BTree<ChecksumTreeKey, ChecksumTreeValue>|
                #[trigger] t.tree_type() == CHECKSUM_TREE_NODE_TYPE && t.root_block == root_block && root_block != 0 ==> {
                    &&& t.inv(*final(ctx))
                    &&& forall|k: ChecksumTreeKey| #[trigger] t.get(*final(ctx), k) is None
                },
    {
        BTree::<ChecksumTreeKey, ChecksumTreeValue>::init_empty(ctx, root_block, CHECKSUM_TREE_NODE_TYPE)
    }

    /// Stores the checksum record of a block.
    pub fn insert_checksum<A: BlockAllocator>(
        &mut self,
        ctx: &mut TxContext,
        key: ChecksumTreeKey,
        value: ChecksumTreeValue,
        alloc: &mut A,
    ) -> (r: Result<(), FsError>)
        requires
            old(self).btree.inv(*old(ctx)),
            old(self).btree.guarded_by(*old(ctx), *old(alloc)),
        ensures
            final(self).btree.tree_type() == old(self).btree.tree_type(),
            final(self).btree.root_block == old(self).btree.root_block || !old(alloc).avoids(final(self).btree.root_block),
            forall|x: u64| !old(self).btree.contains_block(*old(ctx), x) && old(alloc).avoids(x) ==> #[trigger] final(ctx).block(x)
                == old(ctx).block(x),
            !old(alloc).can_supply(1) && r is Err ==> *final(ctx) == *old(ctx) && *final(self) == *old(self),
            r is Ok ==> forall|x: u64| #[trigger] final(self).btree.contains_block(*final(ctx), x) ==> old(self).btree.contains_block(
                *old(ctx),
                x,
            ) || !old(alloc).avoids(x),
            old(alloc).can_supply(old(self).btree.height(*old(ctx)) + 2) ==> r is Ok,
            r is Ok ==> BTree::holds_insert(old(self).btree, *old(ctx), final(self).btree, *final(ctx), key, value)
                && final(self).btree.guarded_by(*final(ctx), *final(alloc)),
    {
        self.btree.insert(ctx, key, value, alloc)
    }

    /// The checksum record of a block, if there is one.
    pub fn lookup_checksum(&self, ctx: &TxContext, key: &ChecksumTreeKey) -> (r: Result<Option<ChecksumTreeValue>, FsError>)
        requires
            self.btree.inv(*ctx),
        ensures
            r == Ok::<Option<ChecksumTreeValue>, FsError>(self.btree.get(*ctx, *key)),
    {
        self.btree.lookup(ctx, key)
    }

    /// Marks the record of a block as corrupt. The record is overwritten in
    /// place with an allocator that refuses every block, so a node that
    /// would have to split makes the call fail.
    pub fn mark_corrupt(&mut self, ctx: &mut TxContext, key: &ChecksumTreeKey) -> (r: Result<(), FsError>)
        requires
            old(self).btree.inv(*old(ctx)),
        ensures
            old(self).btree.get(*old(ctx), *key) is None ==> r is Ok && *final(ctx) == *old(ctx) && *final(self) == *old(self),
            old(self).btree.get(*old(ctx), *key) is Some ==> (r is Ok <==> old(self).btree.fits(*old(ctx), *key)),
            r is Err ==> r == Err::<(), FsError>(FsError::Other) && *final(ctx) == *old(ctx),
            r is Ok ==> (old(self).btree.get(*old(ctx), *key) matches Some(v) ==> BTree::holds_insert(
                old(self).btree,
                *old(ctx),
                final(self).btree,
                *final(ctx),
                *key,
                ChecksumTreeValue { verification_status: 2, ..v },
            )),
    {
        let found = match self.lookup_checksum(ctx, key) {
            Ok(v) => v,
            Err(e) => {
                return Err(e);
            },
        };
        if let Some(val) = found {
            let mut val = val;
            val.verification_status = 2;
            let mut refuse = FailingAllocator { error: FsError::Other };
            match self.btree.insert(ctx, *key, val, &mut refuse) {
                Ok(()) => {},
                Err(e) => {
                    return Err(e);
                },
            }
        }
        Ok(())
    }
}

} // verus!
