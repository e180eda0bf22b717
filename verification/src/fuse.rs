//! The userspace mount front end.
use vstd::prelude::*;

verus! {

/// The FUSE entry points of LionFS.
pub struct LionFsFuse;

impl Default for LionFsFuse {
    fn default() -> (r: Self) {
        Self::new()
    }
}

impl LionFsFuse {
    pub fn new() -> (r: Self) {
        LionFsFuse
    }
}

} // verus!
