use lionfs::fuse::LionFsFuse;
use lionfs::kernel::{AddressSpaceOperations, FileOperations, InodeOperations, SuperOperations};

#[test]
fn test_fuse_initialization() {
    let _fuse = LionFsFuse::new();
    // Verifies FUSE struct initialization
}

#[test]
fn kernel_hooks_are_callable() {
    InodeOperations::lookup();
    InodeOperations::getattr();
    InodeOperations::setattr();
    FileOperations::read_iter();
    FileOperations::write_iter();
    FileOperations::fsync();
    SuperOperations::alloc_inode();
    SuperOperations::destroy_inode();
    SuperOperations::write_super();
    SuperOperations::sync_fs();
    AddressSpaceOperations::read_folio();
    AddressSpaceOperations::writepages();
}
