//! Encryption keys.
use vstd::prelude::*;

verus! {

pub const KEY_TREE_NODE_TYPE: u8 = 9;

/// A key as stored in the key tree: up to 256 bits inline.
#[derive(Debug, Clone, Copy)]
pub struct KeyTreeRecord {
    pub algorithm: u8,
    pub key_size: u8,
    pub flags: u16,
    pub data: [u8; 32],
}

/// Holds the master and subvolume keys in memory; none is loaded yet.
pub struct KeyManager {}

impl KeyManager {
    pub fn new() -> (r: Self) {
        KeyManager {}
    }

    /// The key with id `key_id`; no key is known yet.
    pub fn get_key(&self, _key_id: u32) -> (r: Option<[u8; 32]>)
        ensures
            r is None,
    {
        None
    }
}

} // verus!
