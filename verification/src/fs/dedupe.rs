//! Content fingerprints for deduplication.
use vstd::prelude::*;

verus! {

pub const DEDUPE_TREE_NODE_TYPE: u8 = 8;

#[derive(Debug, Clone, Copy)]
pub struct DedupeTreeKey {
    pub hash: [u8; 32],
}

#[derive(Debug, Clone, Copy)]
pub struct DedupeTreeValue {
    pub physical_block: u64,
    pub generation: u64,
    pub refcount: u32,
    pub flags: u32,
}

/// The fingerprint of the first `n` bytes of `data`: byte `i` is folded
/// into position `i % 32` by exclusive or.
pub open spec fn fold_hash(data: Seq<u8>, n: nat) -> Seq<u8>
    decreases n,
{
    if n == 0 {
        Seq::new(32, |i: int| 0u8)
    } else {
        let h = fold_hash(data, (n - 1) as nat);
        let j = (n - 1) % 32;
        h.update(j, h[j] ^ data[n - 1])
    }
}

pub proof fn lemma_fold_hash_len(data: Seq<u8>, n: nat)
    ensures
        fold_hash(data, n).len() == 32,
    decreases n,
{
    if n > 0 {
        lemma_fold_hash_len(data, (n - 1) as nat);
    }
}

pub struct DeduplicationManager {}

impl Default for DeduplicationManager {
    fn default() -> (r: Self) {
        Self::new()
    }
}

impl DeduplicationManager {
    pub fn new() -> (r: Self) {
        DeduplicationManager {}
    }

    /// The 32-byte fingerprint of `data`.
    pub fn hash_block(data: &[u8]) -> (r: [u8; 32])
        ensures
            r@ == fold_hash(data@, data@.len()),
    {
        let mut hash = [0u8; 32];
        let mut i: usize = 0;
        proof {
            assert(hash@ =~= fold_hash(data@, 0));
        }
        while i < data.len()
            invariant
                i <= data@.len(),
                hash@ == fold_hash(data@, i as nat),
            decreases data@.len() - i,
        {
            proof {
                lemma_fold_hash_len(data@, i as nat);
            }
            let j = i % 32;
            let b = hash[j] ^ data[i];
            hash[j] = b;
            i = i + 1;
            proof {
                assert(hash@ =~= fold_hash(data@, i as nat));
            }
        }
        hash
    }
}

} // verus!
