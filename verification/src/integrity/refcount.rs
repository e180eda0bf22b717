//! Reference counts of shared blocks. A block absent from the tree has
//! count 1.
use crate::btree::tree::{BTree, BlockAllocator};
use crate::error::FsError;
use crate::transaction::TxContext;
use vstd::prelude::*;

verus! {

pub const REFCOUNT_TREE_NODE_TYPE: u32 = 7;

/// The count that a tree entry stands for: 1 when there is none.
pub open spec fn count_of(entry: Option<u32>) -> int {
    match entry {
        Some(c) => c as int,
        None => 1,
    }
}

pub struct RefCountManager {
    tree: BTree<u64, u32>,
}

/// Taking away the reference that `increment` added gives back the count
/// the block had, and every other block keeps its count.
pub proof fn lemma_increment_then_decrement(
    t0: BTree<u64, u32>,
    c0: TxContext,
    t1: BTree<u64, u32>,
    c1: TxContext,
    t2: BTree<u64, u32>,
    c2: TxContext,
    block_num: u64,
    up: u32,
    down: u32,
)
    requires
        up == count_of(t0.get(c0, block_num)) + 1,
        BTree::holds_insert(t0, c0, t1, c1, block_num, up),
        down == count_of(t1.get(c1, block_num)) - 1,
        BTree::holds_insert(t1, c1, t2, c2, block_num, down),
    ensures
        count_of(t2.get(c2, block_num)) == count_of(t0.get(c0, block_num)),
        forall|b: u64| b != block_num ==> #[trigger] t2.get(c2, b) == t0.get(c0, b),
{
    assert(t1.get(c1, block_num) == Some(up));
    assert(t2.get(c2, block_num) == Some(down));
}

impl RefCountManager {
    /// The tree of counts, keyed by block.
    pub closed spec fn tree(self) -> BTree<u64, u32> {
        self.tree
    }

    pub fn new(root_block: u64) -> (r: Self)
        ensures
            r.tree().root_block == root_block,
            r.tree().tree_type() == REFCOUNT_TREE_NODE_TYPE,
    {
        RefCountManager { tree: BTree::new(root_block, REFCOUNT_TREE_NODE_TYPE) }
    }

    pub fn get_refcount(&self, ctx: &TxContext, block_num: u64) -> (r: Result<u32, FsError>)
        requires
            self.tree().inv(*ctx),
        ensures
            r matches Ok(c) && c == count_of(self.tree().get(*ctx, block_num)),
    {
        match self.tree.lookup(ctx, &block_num) {
            Ok(Some(count)) => Ok(count),
            Ok(None) => Ok(1),
            Err(e) => Err(e),
        }
    }

    /// Adds one reference to `block_num` and returns the new count.
    pub fn increment<A: BlockAllocator>(&mut self, ctx: &mut TxContext, block_num: u64, alloc: &mut A) -> (r: Result<
        u32,
        FsError,
    >)
        requires
            old(self).tree().inv(*old(ctx)),
            old(self).tree().guarded_by(*old(ctx), *old(alloc)),
            count_of(old(self).tree().get(*old(ctx), block_num)) < u32::MAX,
        ensures
            old(alloc).can_supply(old(self).tree().height(*old(ctx)) + 2) ==> r is Ok,
            r matches Ok(c) ==> {
                &&& c == count_of(old(self).tree().get(*old(ctx), block_num)) + 1
                &&& BTree::holds_insert(old(self).tree(), *old(ctx), final(self).tree(), *final(ctx), block_num, c)
                &&& final(self).tree().guarded_by(*final(ctx), *final(alloc))
            },
    {
        let count = match self.tree.lookup(ctx, &block_num) {
            Ok(Some(c)) => c + 1,
            Ok(None) => 2,
            Err(e) => {
                return Err(e);
            },
        };
        match self.tree.insert(ctx, block_num, count, alloc) {
            Ok(()) => Ok(count),
            Err(e) => Err(e),
        }
    }

    /// Takes one reference away from `block_num` and returns the new count;
    /// a count of 0 cannot be decremented.
    pub fn decrement<A: BlockAllocator>(&mut self, ctx: &mut TxContext, block_num: u64, alloc: &mut A) -> (r: Result<
        u32,
        FsError,
    >)
        requires
            old(self).tree().inv(*old(ctx)),
            old(self).tree().guarded_by(*old(ctx), *old(alloc)),
        ensures
            count_of(old(self).tree().get(*old(ctx), block_num)) == 0 ==> r == Err::<u32, FsError>(FsError::InvalidData)
                && *final(self) == *old(self) && *final(ctx) == *old(ctx),
            count_of(old(self).tree().get(*old(ctx), block_num)) > 0 && old(alloc).can_supply(
                old(self).tree().height(*old(ctx)) + 2,
            ) ==> r is Ok,
            r matches Ok(c) ==> {
                &&& c == count_of(old(self).tree().get(*old(ctx), block_num)) - 1
                &&& BTree::holds_insert(old(self).tree(), *old(ctx), final(self).tree(), *final(ctx), block_num, c)
                &&& final(self).tree().guarded_by(*final(ctx), *final(alloc))
            },
    {
        let count = match self.tree.lookup(ctx, &block_num) {
            Ok(Some(c)) => {
                if c == 0 {
                    return Err(FsError::InvalidData);
                }
                c - 1
            },
            Ok(None) => 0,
            Err(e) => {
                return Err(e);
            },
        };
        if count <= 1 {
            match self.tree.insert(ctx, block_num, count, alloc) {
                Ok(()) => {},
                Err(e) => {
                    return Err(e);
                },
            }
        } else {
            match self.tree.insert(ctx, block_num, count, alloc) {
                Ok(()) => {},
                Err(e) => {
                    return Err(e);
                },
            }
        }
        Ok(count)
    }
}

} // verus!
