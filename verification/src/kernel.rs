//! The shape of the native kernel hooks. Each hook is the entry point that a
//! kernel port of LionFS fills in; none of them has work to do yet.
use vstd::prelude::*;

verus! {

pub struct InodeOperations;

pub struct FileOperations;

pub struct SuperOperations;

pub struct AddressSpaceOperations;

impl InodeOperations {
    /// Directory lookup hook.
    pub fn lookup() {
    }

    /// Attribute read hook.
    pub fn getattr() {
    }

    /// Attribute update hook.
    pub fn setattr() {
    }
}

impl FileOperations {
    /// Read hook.
    pub fn read_iter() {
    }

    /// Write hook.
    pub fn write_iter() {
    }

    /// Commit hook.
    pub fn fsync() {
    }
}

impl SuperOperations {
    /// VFS inode allocation hook.
    pub fn alloc_inode() {
    }

    /// VFS inode release hook.
    pub fn destroy_inode() {
    }

    /// Superblock persistence hook.
    pub fn write_super() {
    }

    /// Whole-filesystem commit hook.
    pub fn sync_fs() {
    }
}

impl AddressSpaceOperations {
    /// Page cache fill hook.
    pub fn read_folio() {
    }

    /// Writeback hook.
    pub fn writepages() {
    }
}

} // verus!
