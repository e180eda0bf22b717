use lionfs::error::FsError;
use lionfs::file::writer::FileManager;
use lionfs::integrity::bad_blocks::{BadBlockKey, BadBlockManager};
use lionfs::integrity::checksum_tree::{ChecksumTree, ChecksumTreeKey};
use lionfs::ondisk::records::{BlockGroupDescriptor, Extent, Inode};
use lionfs::transaction::TxContext;

const BITMAP: u64 = 1;
const BLOCKS: u32 = 64;

fn empty_extent() -> Extent {
    Extent { logical_start: 0, physical_start: 0, length: 0 }
}

fn inode(ino: u64) -> Inode {
    Inode {
        ino,
        mode: 0o100644,
        uid: 0,
        gid: 0,
        links_count: 1,
        flags: 0,
        padding1: 0,
        size: 0,
        ctime: 0,
        mtime: 0,
        atime: 0,
        extent_count: 0,
        compression_algo: 0,
        encryption_algo: 0,
        key_id: 0,
        extents: [empty_extent(); 7],
        checksum: 0,
    }
}

fn group() -> BlockGroupDescriptor {
    BlockGroupDescriptor {
        bg_block_bitmap: BITMAP,
        bg_inode_bitmap: 0,
        bg_inode_table: 0,
        bg_free_blocks_count: 0,
        bg_free_inodes_count: 0,
        bg_used_dirs_count: 0,
        bg_padding: 0,
    }
}

/// A volume whose blocks `0 .. used` are marked in use.
fn volume(used: u32) -> TxContext {
    let mut ctx = TxContext::new();
    let mut bm = vec![0u8; 4096];
    for b in 0..used as usize {
        bm[b / 8] |= 1 << (b % 8);
    }
    ctx.write_block(BITMAP, &bm);
    ctx
}

fn used(ctx: &TxContext, b: u64) -> bool {
    let bm = ctx.read_block(BITMAP);
    bm[(b / 8) as usize] & (1 << (b % 8)) != 0
}

#[test]
fn write_then_read_back() {
    let mut ctx = volume(2);
    let mut ino = inode(7);
    FileManager::write_file(&mut ctx, &group(), BLOCKS, 0, &mut ino, 0, b"hello").unwrap();
    assert_eq!(ino.size, 5);
    assert_eq!(FileManager::get_physical_block(&ino, 0), Ok(2));
    assert!(used(&ctx, 2));
    let data = FileManager::read_file(&mut ctx, 0, 0, &mut ino, 0, 5).unwrap();
    assert_eq!(data, b"hello".to_vec());
    // A read is cut at the end of the file.
    let data = FileManager::read_file(&mut ctx, 0, 0, &mut ino, 1, 100).unwrap();
    assert_eq!(data, b"ello".to_vec());
    // From the end on there is nothing.
    assert!(FileManager::read_file(&mut ctx, 0, 0, &mut ino, 5, 10).unwrap().is_empty());
}

#[test]
fn write_across_block_boundary_joins_extent() {
    let mut ctx = volume(2);
    let mut ino = inode(7);
    let payload: Vec<u8> = (0..10u8).collect();
    FileManager::write_file(&mut ctx, &group(), BLOCKS, 0, &mut ino, 4090, &payload).unwrap();
    assert_eq!(ino.size, 4100);
    assert_eq!(ino.extent_count, 1);
    assert_eq!(ino.extents[0].length, 2);
    assert_eq!(FileManager::get_physical_block(&ino, 0), Ok(2));
    assert_eq!(FileManager::get_physical_block(&ino, 1), Ok(3));
    let data = FileManager::read_file(&mut ctx, 0, 0, &mut ino, 4090, 10).unwrap();
    assert_eq!(data, payload);
    // The untouched start of the first block reads as zeros.
    let head = FileManager::read_file(&mut ctx, 0, 0, &mut ino, 0, 4).unwrap();
    assert_eq!(head, vec![0u8; 4]);
}

#[test]
fn hole_reads_as_zeros() {
    let mut ctx = volume(2);
    let mut ino = inode(7);
    FileManager::write_file(&mut ctx, &group(), BLOCKS, 0, &mut ino, 8192, b"xy").unwrap();
    assert_eq!(ino.size, 8194);
    assert_eq!(FileManager::get_physical_block(&ino, 0), Ok(0));
    let data = FileManager::read_file(&mut ctx, 0, 0, &mut ino, 4096, 4098).unwrap();
    assert_eq!(data.len(), 4098);
    assert!(data[..4096].iter().all(|b| *b == 0));
    assert_eq!(&data[4096..], b"xy");
}

#[test]
fn overwrite_keeps_rest_of_block() {
    let mut ctx = volume(2);
    let mut ino = inode(7);
    FileManager::write_file(&mut ctx, &group(), BLOCKS, 0, &mut ino, 0, b"abcdef").unwrap();
    FileManager::write_file(&mut ctx, &group(), BLOCKS, 0, &mut ino, 2, b"ZZ").unwrap();
    assert_eq!(ino.size, 6);
    let data = FileManager::read_file(&mut ctx, 0, 0, &mut ino, 0, 6).unwrap();
    assert_eq!(data, b"abZZef".to_vec());
    // No second block was taken.
    assert!(!used(&ctx, 3));
}

#[test]
fn write_without_free_block_is_out_of_memory() {
    let mut ctx = volume(BLOCKS);
    let mut ino = inode(7);
    let r = FileManager::write_file(&mut ctx, &group(), BLOCKS, 0, &mut ino, 0, b"a");
    assert_eq!(r, Err(FsError::OutOfMemory));
    assert_eq!(ino.size, 0);
}

#[test]
fn truncate_frees_blocks_past_the_end() {
    let mut ctx = volume(2);
    let mut ino = inode(7);
    let payload = vec![9u8; 3 * 4096];
    FileManager::write_file(&mut ctx, &group(), BLOCKS, 0, &mut ino, 0, &payload).unwrap();
    assert!(used(&ctx, 2) && used(&ctx, 3) && used(&ctx, 4));
    FileManager::truncate_file(&mut ctx, &group(), &mut ino, 5000).unwrap();
    assert_eq!(ino.size, 5000);
    assert_eq!(ino.extent_count, 1);
    assert_eq!(ino.extents[0].length, 2);
    assert!(used(&ctx, 2) && used(&ctx, 3));
    assert!(!used(&ctx, 4));
    assert_eq!(FileManager::get_physical_block(&ino, 2), Ok(0));
}

#[test]
fn truncate_to_zero_clears_extents() {
    let mut ctx = volume(2);
    let mut ino = inode(7);
    FileManager::write_file(&mut ctx, &group(), BLOCKS, 0, &mut ino, 0, b"abc").unwrap();
    FileManager::truncate_file(&mut ctx, &group(), &mut ino, 0).unwrap();
    assert_eq!(ino.size, 0);
    assert_eq!(ino.extent_count, 0);
    assert_eq!(ino.extents[0].length, 0);
    assert!(!used(&ctx, 2));
}

#[test]
fn growing_truncate_only_sets_size() {
    let mut ctx = volume(2);
    let mut ino = inode(7);
    let before = ctx.read_block(BITMAP);
    FileManager::truncate_file(&mut ctx, &group(), &mut ino, 10000).unwrap();
    assert_eq!(ino.size, 10000);
    assert_eq!(ino.extent_count, 0);
    assert_eq!(ctx.read_block(BITMAP), before);
}

#[test]
fn add_extent_joins_and_appends() {
    let mut ino = inode(1);
    FileManager::add_extent(&mut ino, 0, 10, 1).unwrap();
    FileManager::add_extent(&mut ino, 1, 11, 1).unwrap();
    assert_eq!(ino.extent_count, 1);
    assert_eq!(ino.extents[0].length, 2);
    // A run that ends where an extent starts joins it at its start.
    FileManager::add_extent(&mut ino, 5, 20, 1).unwrap();
    FileManager::add_extent(&mut ino, 4, 19, 1).unwrap();
    assert_eq!(ino.extent_count, 2);
    assert_eq!(ino.extents[1].logical_start, 4);
    assert_eq!(ino.extents[1].physical_start, 19);
    assert_eq!(ino.extents[1].length, 2);
    assert_eq!(FileManager::get_physical_block(&ino, 5), Ok(20));
    assert_eq!(FileManager::get_physical_block(&ino, 1), Ok(11));
}

#[test]
fn add_extent_with_full_list_is_out_of_memory() {
    let mut ino = inode(1);
    for i in 0..7u64 {
        FileManager::add_extent(&mut ino, i * 10, 100 + i * 10, 1).unwrap();
    }
    let r = FileManager::add_extent(&mut ino, 200, 500, 1);
    assert_eq!(r, Err(FsError::OutOfMemory));
    assert_eq!(ino.extent_count, 7);
}

#[test]
fn checksum_is_recorded_and_corruption_refused() {
    let mut ctx = volume(5);
    ChecksumTree::init_empty(&mut ctx, 3).unwrap();
    BadBlockManager::init_empty(&mut ctx, 4).unwrap();
    let mut ino = inode(9);
    FileManager::write_file(&mut ctx, &group(), BLOCKS, 3, &mut ino, 0, b"checked").unwrap();
    let ph = FileManager::get_physical_block(&ino, 0).unwrap();
    assert_eq!(ph, 5);
    let tree = ChecksumTree::new(3);
    let rec = tree.lookup_checksum(&ctx, &ChecksumTreeKey { object_id: 9, logical_block: 0 }).unwrap().unwrap();
    assert_eq!(rec.physical_block, 5);
    assert_eq!(rec.verification_status, 1);
    let mut block = ctx.read_block(ph);
    assert_eq!(&rec.checksum_bytes[0..4], &crc32fast::hash(&block).to_le_bytes());
    assert_eq!(FileManager::read_file(&mut ctx, 3, 4, &mut ino, 0, 7).unwrap(), b"checked".to_vec());
    // Change the stored block behind the file's back.
    block[0] = b'X';
    ctx.write_block(ph, &block);
    let r = FileManager::read_file(&mut ctx, 3, 4, &mut ino, 0, 7);
    assert_eq!(r, Err(FsError::InvalidData));
    let bad = BadBlockManager::new(4);
    let entry = bad.btree.lookup(&ctx, &BadBlockKey { physical_block: ph }).unwrap().unwrap();
    assert_eq!(entry.object_id, 9);
}
