//! Sending snapshots to another device.
use vstd::prelude::*;

verus! {

pub struct ReplicationManager;

impl Default for ReplicationManager {
    fn default() -> (r: Self) {
        Self::new()
    }
}

impl ReplicationManager {
    pub fn new() -> (r: Self) {
        ReplicationManager
    }

    /// Replication hook; nothing is sent yet.
    pub fn replicate_snapshot(&self, _snapshot_generation: u64, _target_device: u64) {
    }
}

} // verus!
