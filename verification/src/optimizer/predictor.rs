//! Read-ahead prediction from the transitions between accessed blocks.
use std::collections::HashMap;
use vstd::prelude::*;

verus! {

broadcast use vstd::std_specs::hash::group_hash_axioms;

/// The transition recorded for a block after it was followed by `next`: the
/// same successor gains confidence (up to 255), another one takes its
/// confidence away, and replaces it once the confidence is used up.
pub open spec fn next_transition(prev: Option<(u64, u8)>, next: u64) -> (u64, u8) {
    let e = match prev {
        Some(e) => e,
        None => (next, 0u8),
    };
    if e.0 == next {
        (next, if e.1 == 255 { 255u8 } else { (e.1 + 1) as u8 })
    } else if e.1 == 0 {
        (next, 1u8)
    } else {
        (e.0, (e.1 - 1) as u8)
    }
}

/// A block read after another three times in a row, from no record, is
/// predicted: two confirmations are not enough, the third is.
pub proof fn lemma_three_confirmations(next: u64)
    ensures
        next_transition(None, next) == (next, 1u8),
        next_transition(Some(next_transition(None, next)), next) == (next, 2u8),
        next_transition(Some(next_transition(Some(next_transition(None, next)), next)), next) == (next, 3u8),
{
}

/// Tracks, for each block, the block read after it and a confidence score.
pub struct PredictiveReadEngine {
    transitions: HashMap<u64, (u64, u8)>,
}

impl PredictiveReadEngine {
    /// The recorded successor and confidence of each block.
    pub closed spec fn transitions(self) -> Map<u64, (u64, u8)> {
        self.transitions@
    }

    pub fn new() -> (r: Self)
        ensures
            r.transitions() == Map::<u64, (u64, u8)>::empty(),
    {
        PredictiveReadEngine { transitions: HashMap::new() }
    }

    /// Records that `block_b` was read right after `block_a`.
    pub fn record_sequence(&mut self, block_a: u64, block_b: u64)
        ensures
            final(self).transitions() == old(self).transitions().insert(
                block_a,
                next_transition(
                    if old(self).transitions().contains_key(block_a) {
                        Some(old(self).transitions()[block_a])
                    } else {
                        None
                    },
                    block_b,
                ),
            ),
    {
        let prev = match self.transitions.get(&block_a) {
            Some(e) => Some(*e),
            None => None,
        };
        let e = match prev {
            Some(e) => e,
            None => (block_b, 0u8),
        };
        let updated = if e.0 == block_b {
            (block_b, e.1.saturating_add(1))
        } else if e.1 == 0 {
            (block_b, 1u8)
        } else {
            (e.0, e.1 - 1)
        };
        self.transitions.insert(block_a, updated);
    }

    /// The block expected after `current_block`, once its confidence
    /// exceeds 2.
    pub fn predict_next(&self, current_block: u64) -> (r: Option<u64>)
        ensures
            r == (if self.transitions().contains_key(current_block) && self.transitions()[current_block].1 > 2 {
                Some(self.transitions()[current_block].0)
            } else {
                None
            }),
    {
        match self.transitions.get(&current_block) {
            Some(e) => {
                if e.1 > 2 {
                    Some(e.0)
                } else {
                    None
                }
            },
            None => None,
        }
    }
}

} // verus!
