//! Objects by id, in the object tree.
use crate::btree::tree::{BTree, BlockAllocator};
use crate::codec::{get_u64, put_u64, put_u8, put_zeros, BTreeItem};
use crate::error::FsError;
use crate::transaction::TxContext;
use vstd::bytes::*;
use crate::btree::tree::empty_leaf_image;
use vstd::prelude::*;

verus! {


pub const OBJECT_TREE_NODE_TYPE: u32 = 5;

/// Where an object is stored, its type and its reference count. Bytes 9..16 and 24..32 of its layout are padding.
#[derive(Debug, Clone, Copy, PartialEq, Eq, Structural)]
pub struct ObjectEntry {
    pub physical_block: u64,
    pub object_type: u8,
    pub ref_count: u64,
}

impl BTreeItem for ObjectEntry {
    open spec fn spec_size() -> nat {
        32
    }

    open spec fn spec_decode(bytes: Seq<u8>) -> ObjectEntry {
        ObjectEntry {
            physical_block: spec_u64_from_le_bytes(bytes.subrange(0, 8)),
            object_type: bytes[8],
            ref_count: spec_u64_from_le_bytes(bytes.subrange(16, 24)),
        }
    }

    proof fn lemma_size_bounds() {
    }

    fn size() -> (n: usize) {
        32
    }

    fn encode_into(&self, out: &mut Vec<u8>) {
        let ghost start = out@;
        let ghost s = start.len() as int;
        put_u64(out, self.physical_block);
        put_u8(out, self.object_type);
        put_zeros(out, 7);
        put_u64(out, self.ref_count);
        put_zeros(out, 8);
        proof {
            lemma_auto_spec_u64_to_from_le_bytes();
            lemma_auto_spec_u32_to_from_le_bytes();
            lemma_auto_spec_u16_to_from_le_bytes();
            let e = out@.subrange(s, out@.len() as int);
            assert(out@.subrange(0, s) =~= start);
            assert(e.subrange(0, 8) =~= spec_u64_to_le_bytes(self.physical_block));
            assert(e[8] == self.object_type);
            assert(e.subrange(16, 24) =~= spec_u64_to_le_bytes(self.ref_count));
            assert(ObjectEntry::spec_decode(e) == *self);
        }
    }

    fn decode_from(bytes: &[u8], off: usize) -> (r: ObjectEntry) {
        let _len = bytes.len();
        let ghost e = bytes@.subrange(off as int, off + 32);
        let physical_block = get_u64(bytes, off + 0);
        let object_type = bytes[off + 8];
        let ref_count = get_u64(bytes, off + 16);
        let r = ObjectEntry { physical_block, object_type, ref_count };
        proof {
            assert(e.subrange(0, 8) =~= bytes@.subrange(off + 0, off + 8));
            assert(e[8] == bytes@[off + 8]);
            assert(e.subrange(16, 24) =~= bytes@.subrange(off + 16, off + 24));
        }
        r
    }
}
pub struct ObjectTree {
    pub btree: BTree<u64, ObjectEntry>,
}

impl ObjectTree {
    pub fn new(root_block: u64) -> (r: Self)
        ensures
            r.btree.root_block == root_block,
            r.btree.tree_type() == OBJECT_TREE_NODE_TYPE,
    {
        ObjectTree { btree: BTree::new(root_block, OBJECT_TREE_NODE_TYPE) }
    }

    /// Writes an empty object tree at `root_block`.
    pub fn init_empty(ctx: &mut TxContext, root_block: u64) -> (r: Result<(), FsError>)
        ensures
            r is Ok,
            final(ctx).block(root_block) == empty_leaf_image(OBJECT_TREE_NODE_TYPE),
            forall|x: u64| x != root_block ==> #[trigger] final(ctx).block(x) == old(ctx).block(x),
            forall|t: BTree<u64, ObjectEntry>|
                #[trigger] t.tree_type() == OBJECT_TREE_NODE_TYPE && t.root_block == root_block && root_block != 0 ==> {
                    &&& t.inv(*final(ctx))
                    &&& forall|k: u64| #[trigger] t.get(*final(ctx), k) is None
                },
    {
        BTree::<u64, ObjectEntry>::init_empty(ctx, root_block, OBJECT_TREE_NODE_TYPE)
    }

    /// The entry of object `oid`, if there is one.
    pub fn lookup(&self, ctx: &TxContext, oid: u64) -> (r: Result<Option<ObjectEntry>, FsError>)
        requires
            self.btree.inv(*ctx),
        ensures
            r == Ok::<Option<ObjectEntry>, FsError>(self.btree.get(*ctx, oid)),
    {
        self.btree.lookup(ctx, &oid)
    }

    /// Stores the entry of object `oid`.
    pub fn insert<A: BlockAllocator>(&mut self, ctx: &mut TxContext, oid: u64, entry: ObjectEntry, alloc: &mut A) -> (r:
        Result<(), FsError>)
        requires
            old(self).btree.inv(*old(ctx)),
            old(self).btree.guarded_by(*old(ctx), *old(alloc)),
        ensures
            old(alloc).can_supply(old(self).btree.height(*old(ctx)) + 2) ==> r is Ok,
            r is Ok ==> BTree::holds_insert(old(self).btree, *old(ctx), final(self).btree, *final(ctx), oid, entry)
                && final(self).btree.guarded_by(*final(ctx), *final(alloc)),
    {
        self.btree.insert(ctx, oid, entry, alloc)
    }
}

} // verus!
