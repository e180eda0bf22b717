//! Writable clones, recorded in the clone tree.
use crate::btree::tree::{BTree, BlockAllocator};
use crate::error::FsError;
use crate::ondisk::records::{CloneRecord, Superblock};
use crate::transaction::TxContext;
use vstd::prelude::*;

verus! {

pub const CLONE_TREE_NODE_TYPE: u32 = 9;

pub struct CloneManager {
    tree: BTree<u64, CloneRecord>,
}

impl CloneManager {
    /// The clone tree, keyed by clone id.
    pub closed spec fn tree(self) -> BTree<u64, CloneRecord> {
        self.tree
    }

    pub fn new(root_block: u64) -> (r: Self)
        ensures
            r.tree().root_block == root_block,
            r.tree().tree_type() == CLONE_TREE_NODE_TYPE,
    {
        CloneManager { tree: BTree::new(root_block, CLONE_TREE_NODE_TYPE) }
    }

    /// Records clone `clone_id` of `source_id` at the current generation,
    /// unless that id is taken.
    pub fn create_clone<A: BlockAllocator>(
        &mut self,
        ctx: &mut TxContext,
        sb: &mut Superblock,
        clone_id: u64,
        source_id: u64,
        alloc: &mut A,
    ) -> (r: Result<(), FsError>)
        requires
            old(self).tree().inv(*old(ctx)),
            old(self).tree().guarded_by(*old(ctx), *old(alloc)),
        ensures
            old(self).tree().get(*old(ctx), clone_id) is Some ==> r == Err::<(), FsError>(FsError::AlreadyExists)
                && *final(self) == *old(self) && *final(ctx) == *old(ctx),
            old(self).tree().get(*old(ctx), clone_id) is None && old(alloc).can_supply(
                old(self).tree().height(*old(ctx)) + 2,
            ) ==> r is Ok,
            r is Ok ==> {
                &&& BTree::holds_insert(
                    old(self).tree(),
                    *old(ctx),
                    final(self).tree(),
                    *final(ctx),
                    clone_id,
                    CloneRecord { id: clone_id, source_id, generation: old(sb).generation, shared_extents: 0 },
                )
                &&& final(self).tree().guarded_by(*final(ctx), *final(alloc))
                &&& *final(sb) == (Superblock { clone_tree_root: final(self).tree().root_block, ..*old(sb) })
            },
            r is Err ==> *final(sb) == *old(sb),
    {
        match self.tree.lookup(ctx, &clone_id) {
            Ok(Some(_)) => {
                return Err(FsError::AlreadyExists);
            },
            Ok(None) => {},
            Err(e) => {
                return Err(e);
            },
        }
        let record = CloneRecord { id: clone_id, source_id, generation: sb.generation, shared_extents: 0 };
        match self.tree.insert(ctx, clone_id, record, alloc) {
            Ok(()) => {},
            Err(e) => {
                return Err(e);
            },
        }
        sb.clone_tree_root = self.tree.root_block;
        Ok(())
    }

    /// The record of clone `clone_id`, if there is one.
    pub fn get_clone(&self, ctx: &TxContext, clone_id: u64) -> (r: Result<Option<CloneRecord>, FsError>)
        requires
            self.tree().inv(*ctx),
        ensures
            r == Ok::<Option<CloneRecord>, FsError>(self.tree().get(*ctx, clone_id)),
    {
        self.tree.lookup(ctx, &clone_id)
    }

    /// Forgets clone `clone_id`; fails when there is no such clone.
    pub fn delete_clone<A: BlockAllocator>(
        &mut self,
        ctx: &mut TxContext,
        sb: &mut Superblock,
        clone_id: u64,
        _alloc: &mut A,
    ) -> (r: Result<(), FsError>)
        requires
            old(self).tree().inv(*old(ctx)),
        ensures
            *final(_alloc) == *old(_alloc),
            r == (if old(self).tree().get(*old(ctx), clone_id) is Some {
                Ok::<(), FsError>(())
            } else {
                Err(FsError::NotFound)
            }),
            final(self).tree() == old(self).tree(),
            final(self).tree().inv(*final(ctx)),
            forall|k: u64| #[trigger] final(self).tree().get(*final(ctx), k) == (if k == clone_id {
                None
            } else {
                old(self).tree().get(*old(ctx), k)
            }),
            forall|x: u64| #[trigger] final(self).tree().contains_block(*final(ctx), x) == old(self).tree().contains_block(*old(ctx), x),
            *final(sb) == (if r is Ok {
                Superblock { clone_tree_root: old(self).tree().root_block, ..*old(sb) }
            } else {
                *old(sb)
            }),
    {
        let removed = match self.tree.remove(ctx, &clone_id) {
            Ok(b) => b,
            Err(e) => {
                return Err(e);
            },
        };
        if !removed {
            return Err(FsError::NotFound);
        }
        sb.clone_tree_root = self.tree.root_block;
        Ok(())
    }
}

} // verus!
