//! Snapshots: records of the tree roots at a generation, kept in the
//! snapshot tree.
use crate::btree::tree::{BTree, BlockAllocator};
use crate::clock::unix_now_secs;
use crate::error::FsError;
use crate::ondisk::records::{SnapshotRecord, Superblock};
use crate::transaction::TxContext;
use vstd::prelude::*;

verus! {

pub const SNAPSHOT_TREE_NODE_TYPE: u32 = 8;

/// The record of snapshot `id` of `parent_id` taken at `time` from `sb`.
pub open spec fn snapshot_record(id: u64, parent_id: u64, time: u64, sb: Superblock) -> SnapshotRecord {
    SnapshotRecord {
        id,
        parent_id,
        creation_time: time,
        generation: sb.generation,
        inode_tree_root: sb.inode_tree_root,
        dir_tree_root: sb.dir_tree_root,
        extent_tree_root: sb.extent_tree_root,
        checksum_tree_root: sb.checksum_tree_root,
        bad_blocks_root: sb.bad_blocks_root,
        flags: 0,
        padding: 0,
    }
}

pub struct SnapshotManager {
    tree: BTree<u64, SnapshotRecord>,
}

impl SnapshotManager {
    /// The snapshot tree, keyed by snapshot id.
    pub closed spec fn tree(self) -> BTree<u64, SnapshotRecord> {
        self.tree
    }

    pub fn new(root_block: u64) -> (r: Self)
        ensures
            r.tree().root_block == root_block,
            r.tree().tree_type() == SNAPSHOT_TREE_NODE_TYPE,
    {
        SnapshotManager { tree: BTree::new(root_block, SNAPSHOT_TREE_NODE_TYPE) }
    }

    /// Takes snapshot `snapshot_id`: marks the current generation as the last
    /// snapshotted one, so that later writes copy on write, and records the
    /// current tree roots. Fails when the id is taken.
    pub fn create_snapshot<A: BlockAllocator>(
        &mut self,
        ctx: &mut TxContext,
        sb: &mut Superblock,
        snapshot_id: u64,
        parent_id: u64,
        alloc: &mut A,
    ) -> (r: Result<(), FsError>)
        requires
            old(self).tree().inv(*old(ctx)),
            old(self).tree().guarded_by(*old(ctx), *old(alloc)),
        ensures
            old(self).tree().get(*old(ctx), snapshot_id) is Some ==> r == Err::<(), FsError>(FsError::AlreadyExists)
                && *final(self) == *old(self) && *final(ctx) == *old(ctx) && *final(sb) == *old(sb),
            old(self).tree().get(*old(ctx), snapshot_id) is None && old(alloc).can_supply(
                old(self).tree().height(*old(ctx)) + 2,
            ) ==> r is Ok,
            old(self).tree().get(*old(ctx), snapshot_id) is None ==> {
                let sb1 = Superblock { last_snapshot_generation: old(sb).generation, ..*old(sb) };
                if r is Ok {
                    &&& exists|t: u64|
                        BTree::holds_insert(
                            old(self).tree(),
                            *old(ctx),
                            final(self).tree(),
                            *final(ctx),
                            snapshot_id,
                            #[trigger] snapshot_record(snapshot_id, parent_id, t, *old(sb)),
                        )
                    &&& final(self).tree().guarded_by(*final(ctx), *final(alloc))
                    &&& *final(sb) == (Superblock { snapshot_tree_root: final(self).tree().root_block, ..sb1 })
                } else {
                    *final(sb) == sb1
                }
            },
    {
        match self.tree.lookup(ctx, &snapshot_id) {
            Ok(Some(_)) => {
                return Err(FsError::AlreadyExists);
            },
            Ok(None) => {},
            Err(e) => {
                return Err(e);
            },
        }
        sb.last_snapshot_generation = sb.generation;
        let now = unix_now_secs();
        let record = SnapshotRecord {
            id: snapshot_id,
            parent_id,
            creation_time: now,
            generation: sb.generation,
            inode_tree_root: sb.inode_tree_root,
            dir_tree_root: sb.dir_tree_root,
            extent_tree_root: sb.extent_tree_root,
            checksum_tree_root: sb.checksum_tree_root,
            bad_blocks_root: sb.bad_blocks_root,
            flags: 0,
            padding: 0,
        };
        let ghost sb0 = *old(sb);
        assert(record == snapshot_record(snapshot_id, parent_id, now, sb0));
        match self.tree.insert(ctx, snapshot_id, record, alloc) {
            Ok(()) => {},
            Err(e) => {
                return Err(e);
            },
        }
        sb.snapshot_tree_root = self.tree.root_block;
        Ok(())
    }

    /// The record of snapshot `snapshot_id`, if there is one.
    pub fn get_snapshot(&self, ctx: &TxContext, snapshot_id: u64) -> (r: Result<Option<SnapshotRecord>, FsError>)
        requires
            self.tree().inv(*ctx),
        ensures
            r == Ok::<Option<SnapshotRecord>, FsError>(self.tree().get(*ctx, snapshot_id)),
    {
        self.tree.lookup(ctx, &snapshot_id)
    }

    /// Forgets snapshot `snapshot_id`; the blocks it alone kept are left to
    /// the collector. Fails when there is no such snapshot.
    pub fn delete_snapshot<A: BlockAllocator>(
        &mut self,
        ctx: &mut TxContext,
        snapshot_id: u64,
        _alloc: &mut A,
    ) -> (r: Result<(), FsError>)
        requires
            old(self).tree().inv(*old(ctx)),
        ensures
            *final(_alloc) == *old(_alloc),
            r == (if old(self).tree().get(*old(ctx), snapshot_id) is Some {
                Ok::<(), FsError>(())
            } else {
                Err(FsError::NotFound)
            }),
            final(self).tree() == old(self).tree(),
            final(self).tree().inv(*final(ctx)),
            forall|k: u64| #[trigger] final(self).tree().get(*final(ctx), k) == (if k == snapshot_id {
                None
            } else {
                old(self).tree().get(*old(ctx), k)
            }),
    {
        let removed = match self.tree.remove(ctx, &snapshot_id) {
            Ok(b) => b,
            Err(e) => {
                return Err(e);
            },
        };
        if !removed {
            return Err(FsError::NotFound);
        }
        Ok(())
    }
}

} // verus!
