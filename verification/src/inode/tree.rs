//! Inodes by number, in the inode tree.
use crate::btree::tree::{BTree, BlockAllocator};
use crate::error::FsError;
use crate::ondisk::records::{Inode, Superblock};
use crate::transaction::TxContext;
use crate::btree::tree::empty_leaf_image;
use vstd::prelude::*;

verus! {

pub const INODE_TREE_NODE_TYPE: u32 = 1;

pub struct InodeTree {
    pub btree: BTree<u64, Inode>,
}

impl InodeTree {
    pub fn new(root_block: u64) -> (r: Self)
        ensures
            r.btree.root_block == root_block,
            r.btree.tree_type() == INODE_TREE_NODE_TYPE,
    {
        InodeTree { btree: BTree::new(root_block, INODE_TREE_NODE_TYPE) }
    }

    /// Writes an empty inode tree at `root_block`.
    pub fn init_empty(ctx: &mut TxContext, root_block: u64) -> (r: Result<(), FsError>)
        ensures
            r is Ok,
            final(ctx).block(root_block) == empty_leaf_image(INODE_TREE_NODE_TYPE),
            forall|x: u64| x != root_block ==> #[trigger] final(ctx).block(x) == old(ctx).block(x),
            forall|t: BTree<u64, Inode>|
                #[trigger] t.tree_type() == INODE_TREE_NODE_TYPE && t.root_block == root_block && root_block != 0 ==> {
                    &&& t.inv(*final(ctx))
                    &&& forall|k: u64| #[trigger] t.get(*final(ctx), k) is None
                },
    {
        BTree::<u64, Inode>::init_empty(ctx, root_block, INODE_TREE_NODE_TYPE)
    }

    /// Inode `ino`; fails when there is none.
    pub fn get_inode(&self, ctx: &TxContext, ino: u64) -> (r: Result<Inode, FsError>)
        requires
            self.btree.inv(*ctx),
        ensures
            r == (match self.btree.get(*ctx, ino) {
                Some(i) => Ok::<Inode, FsError>(i),
                None => Err(FsError::NotFound),
            }),
    {
        match self.btree.lookup(ctx, &ino) {
            Ok(Some(inode)) => Ok(inode),
            Ok(None) => Err(FsError::NotFound),
            Err(e) => Err(e),
        }
    }

    /// Stores `inode` under its number.
    pub fn write_inode<A: BlockAllocator>(&mut self, ctx: &mut TxContext, inode: &Inode, alloc: &mut A) -> (r: Result<
        (),
        FsError,
    >)
        requires
            old(self).btree.inv(*old(ctx)),
            old(self).btree.guarded_by(*old(ctx), *old(alloc)),
        ensures
            old(alloc).can_supply(old(self).btree.height(*old(ctx)) + 2) ==> r is Ok,
            old(self).btree.fits(*old(ctx), inode.ino) ==> r is Ok,
            !old(self).btree.fits(*old(ctx), inode.ino) && !old(alloc).can_supply(1) ==> r is Err,
            !old(alloc).can_supply(1) && r is Err ==> *final(ctx) == *old(ctx),
            r matches Err(e) ==> old(alloc).refuses_with(e),
            final(self).btree.root_block == old(self).btree.root_block || !old(alloc).avoids(final(self).btree.root_block),
            r is Ok ==> BTree::holds_insert(old(self).btree, *old(ctx), final(self).btree, *final(ctx), inode.ino, *inode)
                && final(self).btree.guarded_by(*final(ctx), *final(alloc)),
    {
        self.btree.insert(ctx, inode.ino, *inode, alloc)
    }

    /// Hands out the next inode number and counts the new inode.
    pub fn allocate_inode(sb: &mut Superblock) -> (r: Result<u64, FsError>)
        requires
            old(sb).next_ino < u64::MAX,
            old(sb).inode_count < u64::MAX,
        ensures
            r == Ok::<u64, FsError>(old(sb).next_ino),
            *final(sb) == (Superblock {
                next_ino: (old(sb).next_ino + 1) as u64,
                inode_count: (old(sb).inode_count + 1) as u64,
                ..*old(sb)
            }),
    {
        let ino = sb.next_ino;
        sb.next_ino = sb.next_ino + 1;
        sb.inode_count = sb.inode_count + 1;
        Ok(ino)
    }
}

} // verus!
