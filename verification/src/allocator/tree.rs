//! Free extents by start block, in the free-space tree.
use crate::btree::tree::{BTree, BlockAllocator};
use crate::error::FsError;
use crate::transaction::TxContext;
use crate::btree::tree::empty_leaf_image;
use vstd::prelude::*;

verus! {

pub const FREESPACE_TREE_NODE_TYPE: u32 = 4;

pub struct FreeSpaceTree {
    /// Start block of each free extent, to its length.
    pub btree: BTree<u64, u64>,
}

impl FreeSpaceTree {
    pub fn new(root_block: u64) -> (r: Self)
        ensures
            r.btree.root_block == root_block,
            r.btree.tree_type() == FREESPACE_TREE_NODE_TYPE,
    {
        FreeSpaceTree { btree: BTree::new(root_block, FREESPACE_TREE_NODE_TYPE) }
    }

    /// Writes an empty free-space tree at `root_block`.
    pub fn init_empty(ctx: &mut TxContext, root_block: u64) -> (r: Result<(), FsError>)
        ensures
            r is Ok,
            final(ctx).block(root_block) == empty_leaf_image(FREESPACE_TREE_NODE_TYPE),
            forall|x: u64| x != root_block ==> #[trigger] final(ctx).block(x) == old(ctx).block(x),
            forall|t: BTree<u64, u64>|
                #[trigger] t.tree_type() == FREESPACE_TREE_NODE_TYPE && t.root_block == root_block && root_block != 0 ==> {
                    &&& t.inv(*final(ctx))
                    &&& forall|k: u64| #[trigger] t.get(*final(ctx), k) is None
                },
    {
        BTree::<u64, u64>::init_empty(ctx, root_block, FREESPACE_TREE_NODE_TYPE)
    }

    /// Records the free extent of `length` blocks at `physical_start`;
    /// adjacent extents are not merged.
    pub fn add_free_space<A: BlockAllocator>(
        &mut self,
        ctx: &mut TxContext,
        physical_start: u64,
        length: u64,
        alloc: &mut A,
    ) -> (r: Result<(), FsError>)
        requires
            old(self).btree.inv(*old(ctx)),
            old(self).btree.guarded_by(*old(ctx), *old(alloc)),
        ensures
            old(alloc).can_supply(old(self).btree.height(*old(ctx)) + 2) ==> r is Ok,
            r is Ok ==> BTree::holds_insert(old(self).btree, *old(ctx), final(self).btree, *final(ctx), physical_start, length)
                && final(self).btree.guarded_by(*final(ctx), *final(alloc)),
    {
        self.btree.insert(ctx, physical_start, length, alloc)
    }

    /// Removing free extents is not supported: always fails.
    pub fn remove_free_space(&mut self, _ctx: &mut TxContext, _physical_start: u64) -> (r: Result<(), FsError>)
        ensures
            r == Err::<(), FsError>(FsError::Other),
            *final(self) == *old(self),
            *final(_ctx) == *old(_ctx),
    {
        Err(FsError::Other)
    }
}

} // verus!
