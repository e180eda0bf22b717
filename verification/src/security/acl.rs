//! Per-file access flags.
use vstd::prelude::*;

verus! {

pub const ACL_FLAG_IMMUTABLE: u16 = 1;

pub const ACL_FLAG_APPEND_ONLY: u16 = 2;

pub const ACL_FLAG_SECURE_DELETE: u16 = 4;

pub struct AclManager;

impl AclManager {
    pub fn is_immutable(flags: u16) -> (r: bool)
        ensures
            r == (flags & ACL_FLAG_IMMUTABLE != 0),
    {
        (flags & ACL_FLAG_IMMUTABLE) != 0
    }

    pub fn is_append_only(flags: u16) -> (r: bool)
        ensures
            r == (flags & ACL_FLAG_APPEND_ONLY != 0),
    {
        (flags & ACL_FLAG_APPEND_ONLY) != 0
    }

    pub fn requires_secure_delete(flags: u16) -> (r: bool)
        ensures
            r == (flags & ACL_FLAG_SECURE_DELETE != 0),
    {
        (flags & ACL_FLAG_SECURE_DELETE) != 0
    }
}

} // verus!
