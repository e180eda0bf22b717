//! Repair of failed devices.
use vstd::prelude::*;

verus! {

pub struct RecoveryManager;

impl Default for RecoveryManager {
    fn default() -> (r: Self) {
        Self::new()
    }
}

impl RecoveryManager {
    pub fn new() -> (r: Self) {
        RecoveryManager
    }

    /// Rebuild hook for a failed device; no rebuild is done yet.
    pub fn background_rebuild(&self, _dev_id: u64) {
    }

    /// Failover hook for a read error; no failover is done yet.
    pub fn handle_read_error(&self, _logical_block: u64, _dev_id: u64) {
    }
}

} // verus!
