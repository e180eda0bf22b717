use lionfs::allocator::bitmap::Allocator;
use lionfs::allocator::cache::PerCpuAllocatorCache;
use lionfs::allocator::tree::FreeSpaceTree;
use lionfs::btree::tree::{BTree, SequentialAllocator};
use lionfs::directory::tree::{hash_name, DirTreeValue, DirectoryTree};
use lionfs::error::FsError;
use lionfs::fs::clones::{CloneManager, CLONE_TREE_NODE_TYPE};
use lionfs::fs::snapshots::{SnapshotManager, SNAPSHOT_TREE_NODE_TYPE};
use lionfs::fs::volumes::{VolumeManager, SUBVOLUME_TREE_NODE_TYPE};
use lionfs::inode::manager::InodeManager;
use lionfs::inode::tree::{InodeTree, INODE_TREE_NODE_TYPE};
use lionfs::integrity::bad_blocks::{BadBlockKey, BadBlockManager};
use lionfs::integrity::checksum_tree::{ChecksumTree, ChecksumTreeKey, ChecksumTreeValue};
use lionfs::integrity::refcount::{RefCountManager, REFCOUNT_TREE_NODE_TYPE};
use lionfs::object::tree::{ObjectEntry, ObjectTree};
use lionfs::ondisk::records::{CloneRecord, Extent, Inode, SnapshotRecord, SubvolumeRecord, Superblock};
use lionfs::ondisk::upgrade::FeatureNegotiator;
use lionfs::transaction::TxContext;

fn superblock() -> Superblock {
    Superblock {
        magic: 0,
        version: 1,
        block_size: 4096,
        total_blocks: 1024,
        free_blocks: 0,
        inode_count: 1,
        root_inode: 1,
        flags: 0,
        padding1: 0,
        bitmap_start: 1,
        inode_table_start: 0,
        data_region_start: 0,
        generation: 42,
        checksum: 0,
        padding_csum: 0,
        journal_start: 0,
        journal_blocks: 0,
        secondary_sb_1: 0,
        secondary_sb_2: 0,
        block_group_count: 1,
        blocks_per_group: 1024,
        inode_tree_root: 11,
        dir_tree_root: 12,
        extent_tree_root: 13,
        freespace_tree_root: 14,
        next_ino: 2,
        checksum_tree_root: 15,
        bad_blocks_root: 16,
        snapshot_tree_root: 0,
        clone_tree_root: 0,
        refcount_tree_root: 0,
        subvolume_tree_root: 0,
        space_map_root: 0,
        last_snapshot_generation: 0,
        dedupe_tree_root: 0,
        key_tree_root: 0,
        fs_features: 0,
        default_compression: 0,
        default_encryption: 0,
        device_tree_root: 0,
        pool_uuid: [0; 16],
        raid_profile: 0,
        chunk_size: 0,
    }
}

#[test]
fn refcount_defaults_to_one_and_counts_up_and_down() {
    let mut ctx = TxContext::new();
    BTree::<u64, u32>::init_empty(&mut ctx, 100, REFCOUNT_TREE_NODE_TYPE).unwrap();
    let mut rc = RefCountManager::new(100);
    let mut alloc = SequentialAllocator::new(200);
    assert_eq!(rc.get_refcount(&ctx, 7), Ok(1));
    assert_eq!(rc.increment(&mut ctx, 7, &mut alloc), Ok(2));
    assert_eq!(rc.increment(&mut ctx, 7, &mut alloc), Ok(3));
    assert_eq!(rc.decrement(&mut ctx, 7, &mut alloc), Ok(2));
    assert_eq!(rc.get_refcount(&ctx, 7), Ok(2));
    assert_eq!(rc.get_refcount(&ctx, 8), Ok(1));
    assert_eq!(rc.decrement(&mut ctx, 8, &mut alloc), Ok(0));
    assert_eq!(rc.decrement(&mut ctx, 8, &mut alloc), Err(FsError::InvalidData));
}

#[test]
fn clones_are_created_found_and_deleted() {
    let mut ctx = TxContext::new();
    BTree::<u64, CloneRecord>::init_empty(&mut ctx, 100, CLONE_TREE_NODE_TYPE).unwrap();
    let mut mgr = CloneManager::new(100);
    let mut sb = superblock();
    let mut alloc = SequentialAllocator::new(200);
    mgr.create_clone(&mut ctx, &mut sb, 5, 1, &mut alloc).unwrap();
    assert_eq!(sb.clone_tree_root, 100);
    let rec = mgr.get_clone(&ctx, 5).unwrap().unwrap();
    assert_eq!(rec, CloneRecord { id: 5, source_id: 1, generation: 42, shared_extents: 0 });
    assert_eq!(mgr.create_clone(&mut ctx, &mut sb, 5, 2, &mut alloc), Err(FsError::AlreadyExists));
    mgr.delete_clone(&mut ctx, &mut sb, 5, &mut alloc).unwrap();
    assert_eq!(mgr.get_clone(&ctx, 5).unwrap(), None);
    assert_eq!(mgr.delete_clone(&mut ctx, &mut sb, 5, &mut alloc), Err(FsError::NotFound));
}

#[test]
fn snapshots_record_the_roots_of_the_volume() {
    let mut ctx = TxContext::new();
    BTree::<u64, SnapshotRecord>::init_empty(&mut ctx, 100, SNAPSHOT_TREE_NODE_TYPE).unwrap();
    let mut mgr = SnapshotManager::new(100);
    let mut sb = superblock();
    let mut alloc = SequentialAllocator::new(200);
    mgr.create_snapshot(&mut ctx, &mut sb, 1, 0, &mut alloc).unwrap();
    assert_eq!(sb.last_snapshot_generation, 42);
    assert_eq!(sb.snapshot_tree_root, 100);
    let rec = mgr.get_snapshot(&ctx, 1).unwrap().unwrap();
    assert_eq!(rec.id, 1);
    assert_eq!(rec.generation, 42);
    assert_eq!(rec.inode_tree_root, 11);
    assert_eq!(rec.dir_tree_root, 12);
    assert_eq!(rec.extent_tree_root, 13);
    assert_eq!(rec.checksum_tree_root, 15);
    assert_eq!(rec.bad_blocks_root, 16);
    assert_eq!(mgr.create_snapshot(&mut ctx, &mut sb, 1, 0, &mut alloc), Err(FsError::AlreadyExists));
    mgr.delete_snapshot(&mut ctx, 1, &mut alloc).unwrap();
    assert_eq!(mgr.get_snapshot(&ctx, 1).unwrap(), None);
    assert_eq!(mgr.delete_snapshot(&mut ctx, 1, &mut alloc), Err(FsError::NotFound));
}

#[test]
fn subvolumes_are_created_found_and_deleted() {
    let mut ctx = TxContext::new();
    BTree::<u64, SubvolumeRecord>::init_empty(&mut ctx, 100, SUBVOLUME_TREE_NODE_TYPE).unwrap();
    let mut mgr = VolumeManager::new(100);
    let mut sb = superblock();
    let mut alloc = SequentialAllocator::new(200);
    mgr.create_subvolume(&mut ctx, &mut sb, 3, 1, &mut alloc).unwrap();
    let rec = mgr.get_subvolume(&ctx, 3).unwrap().unwrap();
    assert_eq!(rec.id, 3);
    assert_eq!(rec.parent_id, 1);
    assert_eq!(mgr.create_subvolume(&mut ctx, &mut sb, 3, 1, &mut alloc), Err(FsError::AlreadyExists));
    mgr.delete_subvolume(&mut ctx, &mut sb, 3, &mut alloc).unwrap();
    assert_eq!(mgr.get_subvolume(&ctx, 3).unwrap(), None);
}

#[test]
fn checksum_record_is_marked_corrupt() {
    let mut ctx = TxContext::new();
    ChecksumTree::init_empty(&mut ctx, 100).unwrap();
    let mut tree = ChecksumTree::new(100);
    let mut alloc = SequentialAllocator::new(200);
    let key = ChecksumTreeKey { object_id: 3, logical_block: 9 };
    let val = ChecksumTreeValue { physical_block: 55, checksum_bytes: [1; 32], generation: 1, algorithm_id: 1, verification_status: 1 };
    tree.insert_checksum(&mut ctx, key, val, &mut alloc).unwrap();
    assert_eq!(tree.lookup_checksum(&ctx, &key), Ok(Some(val)));
    tree.mark_corrupt(&mut ctx, &key).unwrap();
    let marked = tree.lookup_checksum(&ctx, &key).unwrap().unwrap();
    assert_eq!(marked.verification_status, 2);
    assert_eq!(marked.physical_block, 55);
    // A block with no record is left alone.
    let other = ChecksumTreeKey { object_id: 3, logical_block: 10 };
    tree.mark_corrupt(&mut ctx, &other).unwrap();
    assert_eq!(tree.lookup_checksum(&ctx, &other), Ok(None));
}

#[test]
fn bad_block_is_recorded_with_its_object() {
    let mut ctx = TxContext::new();
    BadBlockManager::init_empty(&mut ctx, 100).unwrap();
    let mut mgr = BadBlockManager::new(100);
    let mut alloc = SequentialAllocator::new(200);
    mgr.mark_bad_block(&mut ctx, 77, 4, &mut alloc).unwrap();
    let entry = mgr.btree.lookup(&ctx, &BadBlockKey { physical_block: 77 }).unwrap().unwrap();
    assert_eq!(entry.object_id, 4);
    let report = BadBlockManager::get_health_report(&ctx, 100);
    assert!(report.starts_with("LionFS Integrity Health Report"));
    assert!(report.contains("Status: HEALTHY"));
}

#[test]
fn inodes_are_stored_and_numbered() {
    let mut ctx = TxContext::new();
    InodeTree::init_empty(&mut ctx, 100).unwrap();
    let mut sb = superblock();
    let ino = InodeManager::allocate_inode(&mut sb).unwrap();
    assert_eq!(ino, 2);
    assert_eq!(sb.next_ino, 3);
    assert_eq!(sb.inode_count, 2);
    let inode = Inode {
        ino,
        mode: 0o100644,
        uid: 1,
        gid: 1,
        links_count: 1,
        flags: 0,
        padding1: 0,
        size: 99,
        ctime: 5,
        mtime: 6,
        atime: 7,
        extent_count: 1,
        compression_algo: 0,
        encryption_algo: 0,
        key_id: 0,
        extents: [Extent { logical_start: 0, physical_start: 500, length: 1 }; 7],
        checksum: 0,
    };
    InodeManager::write_inode(&mut ctx, 100, &inode).unwrap();
    let back = InodeManager::read_inode(&ctx, 100, 2).unwrap();
    assert_eq!(back.size, 99);
    assert_eq!(back.extents[0].physical_start, 500);
    assert_eq!(InodeManager::read_inode(&ctx, 100, 3).map(|i| i.ino), Err(FsError::NotFound));
    let tree = InodeTree::new(100);
    assert_eq!(tree.get_inode(&ctx, 2).map(|i| i.mtime), Ok(6));
}

#[test]
fn objects_and_directory_names_are_found_again() {
    let mut ctx = TxContext::new();
    ObjectTree::init_empty(&mut ctx, 100).unwrap();
    DirectoryTree::init_empty(&mut ctx, 101).unwrap();
    let mut alloc = SequentialAllocator::new(200);
    let mut objects = ObjectTree::new(100);
    let entry = ObjectEntry { physical_block: 9, object_type: 2, ref_count: 1 };
    objects.insert(&mut ctx, 33, entry, &mut alloc).unwrap();
    assert_eq!(objects.lookup(&ctx, 33), Ok(Some(entry)));
    assert_eq!(objects.lookup(&ctx, 34), Ok(None));
    let mut dirs = DirectoryTree::new(101);
    dirs.insert(&mut ctx, "hello", 8, 1, &mut alloc).unwrap();
    let found: DirTreeValue = dirs.lookup(&ctx, "hello").unwrap().unwrap();
    assert_eq!(found.ino, 8);
    assert_eq!(found.name_len, 5);
    assert_eq!(&found.name[..5], b"hello");
    assert!(dirs.lookup(&ctx, "world").unwrap().is_none());
    assert_eq!(hash_name("hello"), hash_name("hello"));
    assert_ne!(hash_name("hello"), hash_name("hellp"));
}

#[test]
fn bitmap_allocator_takes_first_fit_and_frees() {
    let mut ctx = TxContext::new();
    let mut bm = vec![0u8; 4096];
    bm[0] = 0b0000_0111; // blocks 0, 1, 2 used
    bm[1] = 0b0000_0001; // block 8 used
    ctx.write_block(1, &bm);
    // Three free blocks in a row: 3, 4, 5.
    assert_eq!(Allocator::allocate_extents(&mut ctx, 1, 64, 3), Ok(3));
    // Blocks 6 and 7 are free, 8 is used: a run of four starts at 9.
    assert_eq!(Allocator::allocate_extents(&mut ctx, 1, 64, 4), Ok(9));
    assert_eq!(Allocator::allocate_extents(&mut ctx, 1, 64, 0), Err(FsError::InvalidInput));
    assert_eq!(Allocator::allocate_extents(&mut ctx, 1, 64, 64), Err(FsError::OutOfMemory));
    Allocator::free_extents(&mut ctx, 1, 3, 3).unwrap();
    assert_eq!(Allocator::allocate_extents(&mut ctx, 1, 64, 5), Ok(3));
}

#[test]
fn allocator_cache_hands_back_freed_blocks() {
    let mut cache = PerCpuAllocatorCache::new();
    assert_eq!(cache.allocate(0), None);
    cache.free(0, 10);
    cache.free(0, 11);
    assert_eq!(cache.allocate(0), Some(10));
    assert_eq!(cache.allocate(1), None);
    assert_eq!(cache.allocate(0), Some(11));
}

#[test]
fn free_space_tree_accepts_runs_and_refuses_removal() {
    let mut ctx = TxContext::new();
    FreeSpaceTree::init_empty(&mut ctx, 100).unwrap();
    let mut tree = FreeSpaceTree::new(100);
    let mut alloc = SequentialAllocator::new(200);
    tree.add_free_space(&mut ctx, 500, 10, &mut alloc).unwrap();
    assert!(tree.remove_free_space(&mut ctx, 500).is_err());
}

#[test]
fn feature_flags_decide_read_and_write() {
    let f = FeatureNegotiator::new(0, 0b10, 0b01);
    assert!(f.supports_read(0b01));
    assert!(!f.supports_read(0b10));
    assert!(f.supports_write(0b01, 0b10));
    assert!(!f.supports_write(0b01, 0b00));
}

#[test]
fn inode_writes_without_allocator_stop_when_the_leaf_is_full() {
    let mut ctx = TxContext::new();
    InodeTree::init_empty(&mut ctx, 100).unwrap();
    let mut inode = Inode {
        ino: 1,
        mode: 0o100644,
        uid: 0,
        gid: 0,
        links_count: 1,
        flags: 0,
        padding1: 0,
        size: 0,
        ctime: 0,
        mtime: 0,
        atime: 0,
        extent_count: 0,
        compression_algo: 0,
        encryption_algo: 0,
        key_id: 0,
        extents: [Extent { logical_start: 0, physical_start: 0, length: 0 }; 7],
        checksum: 0,
    };
    let mut stored = 0u64;
    loop {
        inode.ino = stored + 1;
        match InodeManager::write_inode(&mut ctx, 100, &inode) {
            Ok(()) => stored += 1,
            Err(e) => {
                assert_eq!(e, FsError::OutOfMemory);
                break;
            }
        }
        assert!(stored < 1000);
    }
    assert!(stored > 0);
    assert_eq!(InodeManager::read_inode(&ctx, 100, stored + 1).map(|i| i.ino), Err(FsError::NotFound));
    for ino in 1..=stored {
        assert_eq!(InodeManager::read_inode(&ctx, 100, ino).map(|i| i.ino), Ok(ino));
    }
    // Rewriting an inode that is already stored still splits the full leaf.
    inode.ino = 1;
    assert_eq!(InodeManager::write_inode(&mut ctx, 100, &inode), Err(FsError::OutOfMemory));
}

#[test]
fn test_btree_node_corruption_detection() {
    let mut ctx = TxContext::new();
    BTree::<u64, Inode>::init_empty(&mut ctx, 5, INODE_TREE_NODE_TYPE).unwrap();
    let inode = Inode {
        ino: 42,
        mode: 0,
        uid: 0,
        gid: 0,
        links_count: 0,
        flags: 0,
        padding1: 0,
        size: 0,
        ctime: 0,
        mtime: 0,
        atime: 0,
        extent_count: 0,
        compression_algo: 0,
        encryption_algo: 0,
        key_id: 0,
        extents: [Extent { logical_start: 0, physical_start: 0, length: 0 }; 7],
        checksum: 0,
    };
    let mut tree = BTree::<u64, Inode>::new(5, INODE_TREE_NODE_TYPE);
    let mut allocate_block = SequentialAllocator::new(99);
    tree.insert(&mut ctx, 42, inode, &mut allocate_block).unwrap();
    let mut corrupted_buf = ctx.read_block(5);
    corrupted_buf[256] ^= 0xFF;
    ctx.write_block(5, &corrupted_buf);
    let tree = BTree::<u64, Inode>::new(5, INODE_TREE_NODE_TYPE);
    let res = tree.lookup(&ctx, &42);
    assert!(res.is_err(), "Corruption was not detected! Expected an error.");
    assert_eq!(res.unwrap_err().to_string(), "BTree Node Checksum Mismatch");
}

#[test]
fn node_blocks_carry_a_checksum_that_lookup_checks() {
    let mut ctx = TxContext::new();
    InodeTree::init_empty(&mut ctx, 7).unwrap();
    let tree = BTree::<u64, Inode>::new(7, INODE_TREE_NODE_TYPE);
    assert_eq!(tree.lookup(&ctx, &1).map(|v| v.is_none()), Ok(true));
    let block = ctx.read_block(7);
    assert_ne!(&block[16..20], &[0u8, 0, 0, 0]);
    let mut bad = block.clone();
    bad[4000] ^= 1;
    ctx.write_block(7, &bad);
    assert_eq!(tree.lookup(&ctx, &1).map(|v| v.is_none()), Err(FsError::NodeChecksumMismatch));
    ctx.write_block(7, &block);
    assert_eq!(tree.lookup(&ctx, &1).map(|v| v.is_none()), Ok(true));
}

#[test]
fn marking_corrupt_in_a_full_leaf_fails_and_keeps_the_record() {
    let mut ctx = TxContext::new();
    ChecksumTree::init_empty(&mut ctx, 100).unwrap();
    let mut tree = ChecksumTree::new(100);
    let mut alloc = SequentialAllocator::new(200);
    let max = BTree::<ChecksumTreeKey, ChecksumTreeValue>::max_leaf_items() as u64;
    let val = ChecksumTreeValue { physical_block: 55, checksum_bytes: [1; 32], generation: 1, algorithm_id: 1, verification_status: 1 };
    for b in 0..max - 1 {
        tree.insert_checksum(&mut ctx, ChecksumTreeKey { object_id: 1, logical_block: b }, val, &mut alloc).unwrap();
    }
    let key = ChecksumTreeKey { object_id: 1, logical_block: 0 };
    assert_eq!(tree.mark_corrupt(&mut ctx, &key), Err(FsError::Other));
    assert_eq!(tree.lookup_checksum(&ctx, &key), Ok(Some(val)));
}

#[test]
fn validate_rejects_a_foreign_or_damaged_root() {
    let mut ctx = TxContext::new();
    InodeTree::init_empty(&mut ctx, 9).unwrap();
    let tree = BTree::<u64, Inode>::new(9, INODE_TREE_NODE_TYPE);
    assert_eq!(tree.validate(&ctx), Ok(1));
    let other = BTree::<u64, Inode>::new(9, INODE_TREE_NODE_TYPE + 1);
    assert_eq!(other.validate(&ctx), Err(FsError::InvalidData));
    let mut block = ctx.read_block(9);
    block[100] ^= 0x80;
    ctx.write_block(9, &block);
    assert_eq!(tree.validate(&ctx), Err(FsError::NodeChecksumMismatch));
    assert_eq!(FsError::NodeChecksumMismatch.to_string(), "BTree Node Checksum Mismatch");
}

#[test]
fn written_blocks_lists_each_block_once_in_first_write_order() {
    let mut ctx = TxContext::new();
    assert!(ctx.written_blocks().is_empty());
    let block = vec![7u8; 4096];
    ctx.write_block(5, &block);
    ctx.write_block(3, &block);
    ctx.write_block(5, &vec![0u8; 4096]);
    assert_eq!(ctx.written_blocks(), vec![5, 3]);
}
