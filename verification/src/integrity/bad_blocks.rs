//! Blocks found unreadable or corrupt, in the bad-block tree.
use crate::btree::tree::{BTree, BlockAllocator};
use crate::clock::unix_now_secs;
use crate::codec::{get_u64, put_u64, put_zeros, BTreeItem, BTreeKey, KeyOrder};
use crate::error::FsError;
use crate::transaction::TxContext;
use vstd::bytes::*;

use crate::btree::tree::empty_leaf_image;
use vstd::prelude::*;

verus! {


pub const BAD_BLOCKS_TREE_NODE_TYPE: u32 = 6;

/// The physical block a bad-block entry is about.
#[derive(Debug, Clone, Copy, PartialEq, Eq, Structural)]
pub struct BadBlockKey {
    pub physical_block: u64,
}

impl BTreeItem for BadBlockKey {
    open spec fn spec_size() -> nat {
        8
    }

    open spec fn spec_decode(bytes: Seq<u8>) -> BadBlockKey {
        BadBlockKey {
            physical_block: spec_u64_from_le_bytes(bytes.subrange(0, 8)),
        }
    }

    proof fn lemma_size_bounds() {
    }

    fn size() -> (n: usize) {
        8
    }

    fn encode_into(&self, out: &mut Vec<u8>) {
        let ghost start = out@;
        let ghost s = start.len() as int;
        put_u64(out, self.physical_block);
        proof {
            lemma_auto_spec_u64_to_from_le_bytes();
            lemma_auto_spec_u32_to_from_le_bytes();
            lemma_auto_spec_u16_to_from_le_bytes();
            let e = out@.subrange(s, out@.len() as int);
            assert(out@.subrange(0, s) =~= start);
            assert(e.subrange(0, 8) =~= spec_u64_to_le_bytes(self.physical_block));
            assert(BadBlockKey::spec_decode(e) == *self);
        }
    }

    fn decode_from(bytes: &[u8], off: usize) -> (r: BadBlockKey) {
        let _len = bytes.len();
        let ghost e = bytes@.subrange(off as int, off + 8);
        let physical_block = get_u64(bytes, off + 0);
        let r = BadBlockKey { physical_block };
        proof {
            assert(e.subrange(0, 8) =~= bytes@.subrange(off + 0, off + 8));
        }
        r
    }
}

impl BTreeKey for BadBlockKey {
    open spec fn rank(self) -> int {
        self.physical_block as int
    }

    proof fn lemma_rank_injective(a: BadBlockKey, b: BadBlockKey) {
    }

    fn compare_key(&self, other: &BadBlockKey) -> (r: KeyOrder) {
        if self.physical_block < other.physical_block {
            KeyOrder::Less
        } else if self.physical_block == other.physical_block {
            KeyOrder::Equal
        } else {
            KeyOrder::Greater
        }
    }
}

/// When a bad block was found and which object it held. The last 16 bytes of its layout are padding.
#[derive(Debug, Clone, Copy, PartialEq, Eq, Structural)]
pub struct BadBlockValue {
    pub timestamp: u64,
    pub object_id: u64,
}

impl BTreeItem for BadBlockValue {
    open spec fn spec_size() -> nat {
        32
    }

    open spec fn spec_decode(bytes: Seq<u8>) -> BadBlockValue {
        BadBlockValue {
            timestamp: spec_u64_from_le_bytes(bytes.subrange(0, 8)),
            object_id: spec_u64_from_le_bytes(bytes.subrange(8, 16)),
        }
    }

    proof fn lemma_size_bounds() {
    }

    fn size() -> (n: usize) {
        32
    }

    fn encode_into(&self, out: &mut Vec<u8>) {
        let ghost start = out@;
        let ghost s = start.len() as int;
        put_u64(out, self.timestamp);
        put_u64(out, self.object_id);
        put_zeros(out, 16);
        proof {
            lemma_auto_spec_u64_to_from_le_bytes();
            lemma_auto_spec_u32_to_from_le_bytes();
            lemma_auto_spec_u16_to_from_le_bytes();
            let e = out@.subrange(s, out@.len() as int);
            assert(out@.subrange(0, s) =~= start);
            assert(e.subrange(0, 8) =~= spec_u64_to_le_bytes(self.timestamp));
            assert(e.subrange(8, 16) =~= spec_u64_to_le_bytes(self.object_id));
            assert(BadBlockValue::spec_decode(e) == *self);
        }
    }

    fn decode_from(bytes: &[u8], off: usize) -> (r: BadBlockValue) {
        let _len = bytes.len();
        let ghost e = bytes@.subrange(off as int, off + 32);
        let timestamp = get_u64(bytes, off + 0);
        let object_id = get_u64(bytes, off + 8);
        let r = BadBlockValue { timestamp, object_id };
        proof {
            assert(e.subrange(0, 8) =~= bytes@.subrange(off + 0, off + 8));
            assert(e.subrange(8, 16) =~= bytes@.subrange(off + 8, off + 16));
        }
        r
    }
}
/// The report that `get_health_report` gives.
pub open spec fn health_report_text() -> Seq<char> {
    "LionFS Integrity Health Report\n------------------------------\nBad Blocks Tree initialized.\nStatus: HEALTHY\n"@
}

/// The entry recorded for a bad block found at `timestamp`.
pub open spec fn bad_entry(timestamp: u64, object_id: u64) -> BadBlockValue {
    BadBlockValue { timestamp, object_id }
}

pub struct BadBlockManager {
    pub btree: BTree<BadBlockKey, BadBlockValue>,
}

impl BadBlockManager {
    pub fn new(root_block: u64) -> (r: Self)
        ensures
            r.btree.root_block == root_block,
            r.btree.tree_type() == BAD_BLOCKS_TREE_NODE_TYPE,
    {
        BadBlockManager { btree: BTree::new(root_block, BAD_BLOCKS_TREE_NODE_TYPE) }
    }

    /// The integrity report of the volume: it states that the bad-block tree
    /// is set up and the volume healthy.
    pub fn get_health_report(_ctx: &TxContext, _root_block: u64) -> (r: String)
        ensures
            r@ == health_report_text(),
    {
        "LionFS Integrity Health Report\n------------------------------\nBad Blocks Tree initialized.\nStatus: HEALTHY\n".to_string()
    }

    /// Writes an empty bad-block tree at `root_block`.
    pub fn init_empty(ctx: &mut TxContext, root_block: u64) -> (r: Result<(), FsError>)
        ensures
            r is Ok,
            final(ctx).block(root_block) == empty_leaf_image(BAD_BLOCKS_TREE_NODE_TYPE),
            forall|x: u64| x != root_block ==> #[trigger] final(ctx).block(x) == old(ctx).block(x),
            forall|t: BTree<BadBlockKey, BadBlockValue>|
                #[trigger] t.tree_type() == BAD_BLOCKS_TREE_NODE_TYPE && t.root_block == root_block && root_block != 0 ==> {
                    &&& t.inv(*final(ctx))
                    &&& forall|k: BadBlockKey| #[trigger] t.get(*final(ctx), k) is None
                },
    {
        BTree::<BadBlockKey, BadBlockValue>::init_empty(ctx, root_block, BAD_BLOCKS_TREE_NODE_TYPE)
    }

    /// Records `physical_block` as bad, with the object it held and the time.
    pub fn mark_bad_block<A: BlockAllocator>(
        &mut self,
        ctx: &mut TxContext,
        physical_block: u64,
        object_id: u64,
        alloc: &mut A,
    ) -> (r: Result<(), FsError>)
        requires
            old(self).btree.inv(*old(ctx)),
            old(self).btree.guarded_by(*old(ctx), *old(alloc)),
        ensures
            final(self).btree.tree_type() == old(self).btree.tree_type(),
            final(self).btree.root_block == old(self).btree.root_block || !old(alloc).avoids(final(self).btree.root_block),
            forall|x: u64| !old(self).btree.contains_block(*old(ctx), x) && old(alloc).avoids(x) ==> #[trigger] final(ctx).block(x)
                == old(ctx).block(x),
            !old(alloc).can_supply(1) && r is Err ==> *final(ctx) == *old(ctx) && *final(self) == *old(self),
            r is Ok ==> forall|x: u64| #[trigger] final(self).btree.contains_block(*final(ctx), x) ==> old(self).btree.contains_block(
                *old(ctx),
                x,
            ) || !old(alloc).avoids(x),
            old(alloc).can_supply(old(self).btree.height(*old(ctx)) + 2) ==> r is Ok,
            r is Ok ==> {
                &&& exists|t: u64|
                    BTree::holds_insert(
                        old(self).btree,
                        *old(ctx),
                        final(self).btree,
                        *final(ctx),
                        BadBlockKey { physical_block },
                        #[trigger] bad_entry(t, object_id),
                    )
                &&& final(self).btree.guarded_by(*final(ctx), *final(alloc))
            },
    {
        let timestamp = unix_now_secs();
        let key = BadBlockKey { physical_block };
        let val = BadBlockValue { timestamp, object_id };
        assert(val == bad_entry(timestamp, object_id));
        self.btree.insert(ctx, key, val, alloc)
    }
}

} // verus!
