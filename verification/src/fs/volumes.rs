//! Subvolumes, recorded in the subvolume tree.
use crate::btree::tree::{BTree, BlockAllocator};
use crate::error::FsError;
use crate::ondisk::records::{SubvolumeRecord, Superblock};
use crate::transaction::TxContext;
use vstd::prelude::*;

verus! {

pub const SUBVOLUME_TREE_NODE_TYPE: u32 = 10;

pub struct VolumeManager {
    tree: BTree<u64, SubvolumeRecord>,
}

impl VolumeManager {
    /// The subvolume tree, keyed by subvolume id.
    pub closed spec fn tree(self) -> BTree<u64, SubvolumeRecord> {
        self.tree
    }

    pub fn new(root_block: u64) -> (r: Self)
        ensures
            r.tree().root_block == root_block,
            r.tree().tree_type() == SUBVOLUME_TREE_NODE_TYPE,
    {
        VolumeManager { tree: BTree::new(root_block, SUBVOLUME_TREE_NODE_TYPE) }
    }

    /// Records subvolume `subvol_id` under `parent_id`, with no trees yet,
    /// unless that id is taken.
    pub fn create_subvolume<A: BlockAllocator>(
        &mut self,
        ctx: &mut TxContext,
        sb: &mut Superblock,
        subvol_id: u64,
        parent_id: u64,
        alloc: &mut A,
    ) -> (r: Result<(), FsError>)
        requires
            old(self).tree().inv(*old(ctx)),
            old(self).tree().guarded_by(*old(ctx), *old(alloc)),
        ensures
            old(self).tree().get(*old(ctx), subvol_id) is Some ==> r == Err::<(), FsError>(FsError::AlreadyExists)
                && *final(self) == *old(self) && *final(ctx) == *old(ctx),
            old(self).tree().get(*old(ctx), subvol_id) is None && old(alloc).can_supply(
                old(self).tree().height(*old(ctx)) + 2,
            ) ==> r is Ok,
            r is Ok ==> {
                &&& BTree::holds_insert(
                    old(self).tree(),
                    *old(ctx),
                    final(self).tree(),
                    *final(ctx),
                    subvol_id,
                    SubvolumeRecord { id: subvol_id, parent_id, inode_tree_root: 0, dir_tree_root: 0, extent_tree_root: 0, flags: 0 },
                )
                &&& final(self).tree().guarded_by(*final(ctx), *final(alloc))
                &&& *final(sb) == (Superblock { subvolume_tree_root: final(self).tree().root_block, ..*old(sb) })
            },
            r is Err ==> *final(sb) == *old(sb),
    {
        match self.tree.lookup(ctx, &subvol_id) {
            Ok(Some(_)) => {
                return Err(FsError::AlreadyExists);
            },
            Ok(None) => {},
            Err(e) => {
                return Err(e);
            },
        }
        let record = SubvolumeRecord { id: subvol_id, parent_id, inode_tree_root: 0, dir_tree_root: 0, extent_tree_root: 0, flags: 0 };
        match self.tree.insert(ctx, subvol_id, record, alloc) {
            Ok(()) => {},
            Err(e) => {
                return Err(e);
            },
        }
        sb.subvolume_tree_root = self.tree.root_block;
        Ok(())
    }

    /// The record of subvolume `subvol_id`, if there is one.
    pub fn get_subvolume(&self, ctx: &TxContext, subvol_id: u64) -> (r: Result<Option<SubvolumeRecord>, FsError>)
        requires
            self.tree().inv(*ctx),
        ensures
            r == Ok::<Option<SubvolumeRecord>, FsError>(self.tree().get(*ctx, subvol_id)),
    {
        self.tree.lookup(ctx, &subvol_id)
    }

    /// Forgets subvolume `subvol_id`; fails when there is no such subvolume.
    pub fn delete_subvolume<A: BlockAllocator>(
        &mut self,
        ctx: &mut TxContext,
        sb: &mut Superblock,
        subvol_id: u64,
        _alloc: &mut A,
    ) -> (r: Result<(), FsError>)
        requires
            old(self).tree().inv(*old(ctx)),
        ensures
            *final(_alloc) == *old(_alloc),
            r == (if old(self).tree().get(*old(ctx), subvol_id) is Some {
                Ok::<(), FsError>(())
            } else {
                Err(FsError::NotFound)
            }),
            final(self).tree() == old(self).tree(),
            final(self).tree().inv(*final(ctx)),
            forall|k: u64| #[trigger] final(self).tree().get(*final(ctx), k) == (if k == subvol_id {
                None
            } else {
                old(self).tree().get(*old(ctx), k)
            }),
            forall|x: u64| #[trigger] final(self).tree().contains_block(*final(ctx), x) == old(self).tree().contains_block(*old(ctx), x),
            *final(sb) == (if r is Ok {
                Superblock { subvolume_tree_root: old(self).tree().root_block, ..*old(sb) }
            } else {
                *old(sb)
            }),
    {
        let removed = match self.tree.remove(ctx, &subvol_id) {
            Ok(b) => b,
            Err(e) => {
                return Err(e);
            },
        };
        if !removed {
            return Err(FsError::NotFound);
        }
        sb.subvolume_tree_root = self.tree.root_block;
        Ok(())
    }
}

} // verus!
