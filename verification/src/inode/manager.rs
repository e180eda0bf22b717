//! Inode access by the root of the inode tree.
use crate::btree::tree::{BTree, BlockAllocator, FailingAllocator};
use crate::error::FsError;
use crate::inode::tree::{InodeTree, INODE_TREE_NODE_TYPE};
use crate::ondisk::records::{Inode, Superblock};
use crate::transaction::TxContext;
use vstd::prelude::*;

verus! {

/// `t` is the inode tree rooted at `root`.
pub open spec fn is_inode_tree(t: BTree<u64, Inode>, root: u64) -> bool {
    t.root_block == root && t.tree_type() == INODE_TREE_NODE_TYPE
}

pub struct InodeManager;

impl InodeManager {
    /// Inode `ino` of the inode tree rooted at `inode_tree_root`.
    pub fn read_inode(ctx: &TxContext, inode_tree_root: u64, ino: u64) -> (r: Result<Inode, FsError>)
        requires
            forall|t: BTree<u64, Inode>| #[trigger] is_inode_tree(t, inode_tree_root) ==> t.inv(*ctx),
        ensures
            forall|t: BTree<u64, Inode>| #[trigger] is_inode_tree(t, inode_tree_root) ==> r == (match t.get(*ctx, ino) {
                Some(i) => Ok::<Inode, FsError>(i),
                None => Err(FsError::NotFound),
            }),
    {
        let tree = InodeTree::new(inode_tree_root);
        proof {
            assert forall|t: BTree<u64, Inode>| #[trigger] is_inode_tree(t, inode_tree_root) implies t == tree.btree by {
                BTree::lemma_same_tree(t, tree.btree);
            }
            assert(is_inode_tree(tree.btree, inode_tree_root));
        }
        tree.get_inode(ctx, ino)
    }

    /// Stores `inode` with an allocator that refuses every block: the write
    /// fails when a node of the tree would have to split.
    pub fn write_inode(ctx: &mut TxContext, inode_tree_root: u64, inode: &Inode) -> (r: Result<(), FsError>)
        requires
            forall|t: BTree<u64, Inode>| #[trigger] is_inode_tree(t, inode_tree_root) ==> t.inv(*old(ctx)),
        ensures
            forall|t: BTree<u64, Inode>| #[trigger] is_inode_tree(t, inode_tree_root) ==> (r is Ok <==> t.fits(
                *old(ctx),
                inode.ino,
            )),
            r is Err ==> r == Err::<(), FsError>(FsError::OutOfMemory) && *final(ctx) == *old(ctx),
            r is Ok ==> forall|t: BTree<u64, Inode>| #[trigger] is_inode_tree(t, inode_tree_root) ==> BTree::holds_insert(
                t,
                *old(ctx),
                t,
                *final(ctx),
                inode.ino,
                *inode,
            ),
    {
        let mut tree = InodeTree::new(inode_tree_root);
        let ghost t0 = tree.btree;
        proof {
            assert forall|t: BTree<u64, Inode>| #[trigger] is_inode_tree(t, inode_tree_root) implies t == t0 by {
                BTree::lemma_same_tree(t, t0);
            }
            assert(is_inode_tree(t0, inode_tree_root));
        }
        let mut refuse = FailingAllocator { error: FsError::OutOfMemory };
        let r = tree.write_inode(ctx, inode, &mut refuse);
        proof {
            if r is Ok {
                BTree::lemma_same_tree(tree.btree, t0);
            }
        }
        r
    }

    /// Stores `inode` in the inode tree rooted at `inode_tree_root`. When the
    /// root splits, the new root is not reported: the tree stays reachable
    /// only through the root the call made.
    pub fn write_inode_with_allocator<A: BlockAllocator>(
        ctx: &mut TxContext,
        inode_tree_root: u64,
        inode: &Inode,
        alloc: &mut A,
    ) -> (r: Result<(), FsError>)
        requires
            forall|t: BTree<u64, Inode>| #[trigger] is_inode_tree(t, inode_tree_root) ==> t.inv(*old(ctx)) && t.guarded_by(
                *old(ctx),
                *old(alloc),
            ),
        ensures
            forall|t: BTree<u64, Inode>| #[trigger] is_inode_tree(t, inode_tree_root) ==> (t.fits(*old(ctx), inode.ino)
                || old(alloc).can_supply(t.height(*old(ctx)) + 2) ==> r is Ok),
            r is Ok ==> exists|t1: BTree<u64, Inode>|
                #[trigger] t1.tree_type() == INODE_TREE_NODE_TYPE && forall|t: BTree<u64, Inode>|
                    #[trigger] is_inode_tree(t, inode_tree_root) ==> BTree::holds_insert(
                        t,
                        *old(ctx),
                        t1,
                        *final(ctx),
                        inode.ino,
                        *inode,
                    ),
    {
        let mut tree = InodeTree::new(inode_tree_root);
        let ghost t0 = tree.btree;
        proof {
            assert forall|t: BTree<u64, Inode>| #[trigger] is_inode_tree(t, inode_tree_root) implies t == t0 by {
                BTree::lemma_same_tree(t, t0);
            }
            assert(is_inode_tree(t0, inode_tree_root));
        }
        let r = tree.write_inode(ctx, inode, alloc);
        proof {
            if r is Ok {
                let t1 = tree.btree;
                assert(t1.tree_type() == INODE_TREE_NODE_TYPE);
                assert forall|t: BTree<u64, Inode>| #[trigger] is_inode_tree(t, inode_tree_root) implies BTree::holds_insert(
                    t,
                    *old(ctx),
                    t1,
                    *ctx,
                    inode.ino,
                    *inode,
                ) by {
                    assert(t == t0);
                }
            }
        }
        r
    }

    /// Hands out the next inode number.
    pub fn allocate_inode(sb: &mut Superblock) -> (r: Result<u64, FsError>)
        requires
            old(sb).next_ino < u64::MAX,
            old(sb).inode_count < u64::MAX,
        ensures
            r == Ok::<u64, FsError>(old(sb).next_ino),
            *final(sb) == (Superblock {
                next_ino: (old(sb).next_ino + 1) as u64,
                inode_count: (old(sb).inode_count + 1) as u64,
                ..*old(sb)
            }),
    {
        InodeTree::allocate_inode(sb)
    }
}

} // verus!
