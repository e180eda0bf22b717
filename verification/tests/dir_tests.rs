use lionfs::directory::entries::DirManager;
use lionfs::error::FsError;
use lionfs::file::writer::FileManager;
use lionfs::ondisk::records::{BlockGroupDescriptor, Extent, Inode};
use lionfs::transaction::TxContext;

const BITMAP: u64 = 1;
const BLOCKS: u32 = 64;

fn dir_inode() -> Inode {
    Inode {
        ino: 2,
        mode: 0o040755,
        uid: 0,
        gid: 0,
        links_count: 2,
        flags: 0,
        padding1: 0,
        size: 0,
        ctime: 0,
        mtime: 0,
        atime: 0,
        extent_count: 0,
        compression_algo: 0,
        encryption_algo: 0,
        key_id: 0,
        extents: [Extent { logical_start: 0, physical_start: 0, length: 0 }; 7],
        checksum: 0,
    }
}

fn group() -> BlockGroupDescriptor {
    BlockGroupDescriptor {
        bg_block_bitmap: BITMAP,
        bg_inode_bitmap: 0,
        bg_inode_table: 0,
        bg_free_blocks_count: 0,
        bg_free_inodes_count: 0,
        bg_used_dirs_count: 0,
        bg_padding: 0,
    }
}

fn volume() -> TxContext {
    let mut ctx = TxContext::new();
    let mut bm = vec![0u8; 4096];
    bm[0] = 0b11;
    ctx.write_block(BITMAP, &bm);
    ctx
}

fn names(ctx: &mut TxContext, dir: &mut Inode) -> Vec<(u64, String, u8)> {
    DirManager::read_entries(ctx, 0, 0, dir)
        .unwrap()
        .into_iter()
        .map(|e| (e.ino, e.name, e.file_type))
        .collect()
}

fn add(ctx: &mut TxContext, dir: &mut Inode, name: &str, ino: u64) -> Result<(), FsError> {
    DirManager::add_entry(ctx, &group(), BLOCKS, 0, 0, dir, name.as_bytes(), ino, 1)
}

#[test]
fn empty_directory_has_no_entries() {
    let mut ctx = volume();
    let mut dir = dir_inode();
    assert!(names(&mut ctx, &mut dir).is_empty());
}

#[test]
fn added_entries_are_listed_in_order() {
    let mut ctx = volume();
    let mut dir = dir_inode();
    add(&mut ctx, &mut dir, "foo", 12).unwrap();
    add(&mut ctx, &mut dir, "bar", 13).unwrap();
    assert_eq!(dir.size, 48);
    assert_eq!(names(&mut ctx, &mut dir), vec![(12, "foo".to_string(), 1), (13, "bar".to_string(), 1)]);
}

#[test]
fn removed_entry_is_gone_and_its_record_reused() {
    let mut ctx = volume();
    let mut dir = dir_inode();
    add(&mut ctx, &mut dir, "foo", 12).unwrap();
    add(&mut ctx, &mut dir, "bar", 13).unwrap();
    let removed = DirManager::remove_entry(&mut ctx, &group(), BLOCKS, 0, 0, &mut dir, b"foo").unwrap();
    assert_eq!(removed, Some(12));
    assert_eq!(names(&mut ctx, &mut dir), vec![(13, "bar".to_string(), 1)]);
    add(&mut ctx, &mut dir, "baz", 14).unwrap();
    assert_eq!(dir.size, 48);
    assert_eq!(names(&mut ctx, &mut dir), vec![(14, "baz".to_string(), 1), (13, "bar".to_string(), 1)]);
}

#[test]
fn removing_missing_name_finds_nothing() {
    let mut ctx = volume();
    let mut dir = dir_inode();
    add(&mut ctx, &mut dir, "foo", 12).unwrap();
    let removed = DirManager::remove_entry(&mut ctx, &group(), BLOCKS, 0, 0, &mut dir, b"fo").unwrap();
    assert_eq!(removed, None);
    assert_eq!(names(&mut ctx, &mut dir).len(), 1);
}

#[test]
fn long_free_record_is_split_for_a_new_entry() {
    let mut ctx = volume();
    let mut dir = dir_inode();
    let long = "n".repeat(48);
    add(&mut ctx, &mut dir, &long, 20).unwrap();
    assert_eq!(dir.size, 64);
    DirManager::remove_entry(&mut ctx, &group(), BLOCKS, 0, 0, &mut dir, long.as_bytes()).unwrap();
    add(&mut ctx, &mut dir, "x", 21).unwrap();
    add(&mut ctx, &mut dir, "y", 22).unwrap();
    assert_eq!(dir.size, 64);
    assert_eq!(names(&mut ctx, &mut dir), vec![(21, "x".to_string(), 1), (22, "y".to_string(), 1)]);
}

#[test]
fn name_over_255_bytes_is_refused() {
    let mut ctx = volume();
    let mut dir = dir_inode();
    let name = "a".repeat(256);
    assert_eq!(add(&mut ctx, &mut dir, &name, 5), Err(FsError::InvalidInput));
    assert_eq!(dir.size, 0);
}

#[test]
fn zero_record_length_is_invalid_data() {
    let mut ctx = volume();
    let mut dir = dir_inode();
    FileManager::write_file(&mut ctx, &group(), BLOCKS, 0, &mut dir, 0, &[0u8; 16]).unwrap();
    assert_eq!(add(&mut ctx, &mut dir, "a", 5), Err(FsError::InvalidData));
    assert!(names(&mut ctx, &mut dir).is_empty());
}
