use lionfs::disk::{Superblock, MAGIC, TOTAL_BLOCKS};
use lionfs::inode::{KIND_DIR, KIND_FILE, KIND_SYMLINK, PAYLOAD_SIZE};
use lionfs::lionfs::Errno;
use lionfs::mount::{EntryKind, LionFS};
use lionfs::store::BlockStore;
use lionfs::volume::DiskManager;

fn fresh_fs() -> LionFS {
    LionFS::new(DiskManager::new(BlockStore::new(), true))
}

#[test]
fn fresh_volume_is_formatted_with_a_root_directory() {
    let fs = fresh_fs();
    let sb = Superblock::from_payload(&fs.disk.read_block(0));
    assert_eq!(sb.magic, MAGIC);
    assert_eq!(sb.total_blocks, TOTAL_BLOCKS);
    // The root took the first free block, 34.
    assert_eq!(sb.free_blocks, TOTAL_BLOCKS - 35 - 1);
    assert_eq!(fs.disk.read_block(TOTAL_BLOCKS - 1), fs.disk.read_block(0));
    let root = fs.getattr(1).unwrap();
    assert_eq!(root.kind, KIND_DIR);
    assert_eq!(root.parent, 1);
    assert_eq!(root.mode, 0o777);
    assert_eq!(root.uid, 1000);
    assert_eq!(root.nlink, 2);
    assert_eq!(root.direct_blocks[0], 34);
    assert_eq!(fs.getattr(2), Err(Errno::NoEntry));
}

#[test]
fn allocation_takes_the_first_free_block_and_freeing_gives_it_back() {
    let mut disk = DiskManager::new(BlockStore::new(), true);
    assert_eq!(disk.allocate_block(), Some(34));
    assert_eq!(disk.allocate_block(), Some(35));
    let sb = Superblock::from_payload(&disk.read_block(0));
    assert_eq!(sb.free_blocks, TOTAL_BLOCKS - 35 - 2);
    disk.free_block(34);
    assert_eq!(Superblock::from_payload(&disk.read_block(0)).free_blocks, TOTAL_BLOCKS - 35 - 1);
    // Freeing a free block changes nothing.
    disk.free_block(34);
    assert_eq!(Superblock::from_payload(&disk.read_block(0)).free_blocks, TOTAL_BLOCKS - 35 - 1);
    assert_eq!(disk.allocate_block(), Some(34));
    assert_eq!(disk.allocate_inode(), Some(1));
}

#[test]
fn superblock_is_restored_from_its_backup() {
    let formatted = DiskManager::new(BlockStore::new(), true);
    let backup = formatted.read_block(TOTAL_BLOCKS - 1);
    let mut store = BlockStore::new();
    store.load(0, &vec![0u8; PAYLOAD_SIZE]);
    store.load(TOTAL_BLOCKS - 1, &backup);
    let healed = DiskManager::new(store, false);
    assert_eq!(healed.read_block(0), backup);
}

#[test]
fn changed_blocks_are_listed_once() {
    let mut store = BlockStore::new();
    let p = vec![7u8; PAYLOAD_SIZE];
    store.write_block(40, &p);
    store.write_block(41, &p);
    store.write_block(40, &p);
    store.load(42, &p);
    assert_eq!(store.take_written(), vec![40, 41]);
    assert_eq!(store.take_written(), Vec::<u32>::new());
    assert_eq!(store.read_block(42), p);
    assert_eq!(store.read_block(43), vec![0u8; PAYLOAD_SIZE]);
}

#[test]
fn create_write_read_back() {
    let mut fs = fresh_fs();
    let f = fs.create(1, "hello.txt", 0o644, 5, 6).unwrap();
    assert_eq!(f.ino, 2);
    assert_eq!(f.kind, KIND_FILE);
    assert_eq!(f.parent, 1);
    assert_eq!(fs.lookup(1, "hello.txt").unwrap(), f);
    assert_eq!(fs.lookup(1, "other"), Err(Errno::NoEntry));
    let data: Vec<u8> = (0..10000u32).map(|i| (i % 251) as u8).collect();
    assert_eq!(fs.write(f.ino, 100, &data), Ok(10000));
    let now = fs.getattr(f.ino).unwrap();
    assert_eq!(now.size, 10100);
    let back = fs.read(f.ino, 100, 10000).unwrap();
    assert_eq!(back, data);
    // A read past the end stops at the end; one at the end is empty.
    assert_eq!(fs.read(f.ino, 10000, 500).unwrap(), data[9900..].to_vec());
    assert_eq!(fs.read(f.ino, 10100, 5).unwrap(), Vec::<u8>::new());
    // The bytes before the write read as zeros.
    assert_eq!(fs.read(f.ino, 0, 100).unwrap(), vec![0u8; 100]);
}

#[test]
fn overwrite_moves_the_block_and_keeps_the_rest() {
    let mut fs = fresh_fs();
    let f = fs.create(1, "f", 0o644, 0, 0).unwrap();
    fs.write(f.ino, 0, b"abcdef").unwrap();
    let first = fs.getattr(f.ino).unwrap().direct_blocks[0];
    fs.write(f.ino, 2, b"XY").unwrap();
    let second = fs.getattr(f.ino).unwrap().direct_blocks[0];
    assert_ne!(first, second);
    assert_eq!(fs.read(f.ino, 0, 6).unwrap(), b"abXYef".to_vec());
}

#[test]
fn corrupted_block_fails_the_read() {
    let mut fs = fresh_fs();
    let f = fs.create(1, "f", 0o644, 0, 0).unwrap();
    fs.write(f.ino, 0, b"payload").unwrap();
    let block = fs.getattr(f.ino).unwrap().direct_blocks[0];
    let mut raw = fs.disk.read_block(block);
    raw[3] ^= 0xFF;
    fs.disk.write_block(block, &raw);
    assert_eq!(fs.read(f.ino, 0, 7), Err(Errno::Io));
}

#[test]
fn write_past_the_largest_file_is_refused() {
    let mut fs = fresh_fs();
    let f = fs.create(1, "f", 0o644, 0, 0).unwrap();
    let far = (12 + 510) as u64 * PAYLOAD_SIZE as u64;
    assert_eq!(fs.write(f.ino, far, b"x"), Err(Errno::FileTooBig));
    assert_eq!(fs.write(99, 0, b"x"), Err(Errno::NoEntry));
}

#[test]
fn directories_list_and_remove() {
    let mut fs = fresh_fs();
    let d = fs.mkdir(1, "sub", 0o755, 1, 1).unwrap();
    assert_eq!(d.kind, KIND_DIR);
    assert_eq!(fs.getattr(1).unwrap().nlink, 3);
    let f = fs.create(d.ino, "inner", 0o644, 1, 1).unwrap();
    let listing = fs.readdir(d.ino).unwrap();
    assert_eq!(listing.len(), 3);
    assert_eq!(listing[0], (d.ino, EntryKind::Directory, ".".to_string()));
    assert_eq!(listing[1], (1, EntryKind::Directory, "..".to_string()));
    assert_eq!(listing[2], (f.ino, EntryKind::RegularFile, "inner".to_string()));
    assert_eq!(fs.rmdir(1, "sub"), Err(Errno::NotEmpty));
    assert_eq!(fs.unlink(d.ino, "inner"), Ok(()));
    assert_eq!(fs.getattr(f.ino), Err(Errno::NoEntry));
    assert_eq!(fs.rmdir(1, "sub"), Ok(()));
    assert_eq!(fs.getattr(d.ino), Err(Errno::NoEntry));
    assert_eq!(fs.getattr(1).unwrap().nlink, 2);
    assert_eq!(fs.rmdir(1, "sub"), Err(Errno::NoEntry));
    assert_eq!(fs.readdir(f.ino), Err(Errno::NoEntry));
}

#[test]
fn rename_within_and_across_directories() {
    let mut fs = fresh_fs();
    let d = fs.mkdir(1, "d", 0o755, 0, 0).unwrap();
    let f = fs.create(1, "a", 0o644, 0, 0).unwrap();
    assert_eq!(fs.rename(1, "a", 1, "b"), Ok(()));
    assert_eq!(fs.lookup(1, "a"), Err(Errno::NoEntry));
    assert_eq!(fs.lookup(1, "b").unwrap().ino, f.ino);
    assert_eq!(fs.rename(1, "b", d.ino, "c"), Ok(()));
    assert_eq!(fs.lookup(1, "b"), Err(Errno::NoEntry));
    let moved = fs.lookup(d.ino, "c").unwrap();
    assert_eq!(moved.ino, f.ino);
    assert_eq!(moved.parent, d.ino);
    assert_eq!(fs.rename(1, "missing", 1, "x"), Err(Errno::NoEntry));
}

#[test]
fn symlink_keeps_its_target() {
    let mut fs = fresh_fs();
    let l = fs.symlink(1, "link", b"/some/target", 0, 0).unwrap();
    assert_eq!(l.kind, KIND_SYMLINK);
    assert_eq!(l.size, 12);
    assert_eq!(fs.readlink(l.ino).unwrap(), b"/some/target".to_vec());
    assert_eq!(fs.readlink(1), Err(Errno::NoEntry));
}

#[test]
fn truncate_frees_blocks_past_the_new_size() {
    let mut fs = fresh_fs();
    let f = fs.create(1, "f", 0o644, 0, 0).unwrap();
    let data = vec![1u8; 3 * PAYLOAD_SIZE];
    fs.write(f.ino, 0, &data).unwrap();
    let before = fs.getattr(f.ino).unwrap();
    assert!(before.direct_blocks[2] != 0);
    let after = fs.setattr(f.ino, Some(PAYLOAD_SIZE as u64 + 1)).unwrap();
    assert_eq!(after.size, PAYLOAD_SIZE as u64 + 1);
    assert_eq!(after.direct_blocks[0], before.direct_blocks[0]);
    assert_eq!(after.direct_blocks[1], before.direct_blocks[1]);
    assert_eq!(after.direct_blocks[2], 0);
    assert_eq!(fs.getattr(f.ino).unwrap(), after);
    let sb = Superblock::from_payload(&fs.disk.read_block(0));
    // Root block plus the two blocks left.
    assert_eq!(sb.free_blocks, TOTAL_BLOCKS - 35 - 3);
}

#[test]
fn long_names_are_refused() {
    let mut fs = fresh_fs();
    let long = "n".repeat(57);
    assert_eq!(fs.create(1, &long, 0o644, 0, 0), Err(Errno::NameTooLong));
    assert_eq!(fs.create(7, "x", 0o644, 0, 0), Err(Errno::NoEntry));
}

#[test]
fn write_past_the_direct_blocks_is_not_kept() {
    // Writes never allocate the indirect block, so a block past the twelve
    // direct ones is written, counted in the size, and not recorded.
    let mut fs = fresh_fs();
    let f = fs.create(1, "f", 0o644, 0, 0).unwrap();
    let at = 12 * PAYLOAD_SIZE as u64;
    assert_eq!(fs.write(f.ino, at, b"lost"), Ok(4));
    let now = fs.getattr(f.ino).unwrap();
    assert_eq!(now.size, at + 4);
    assert_eq!(now.indirect_block, 0);
    assert_eq!(fs.read(f.ino, at, 4).unwrap(), Vec::<u8>::new());
}

#[test]
fn get_file_block_maps_indirect_blocks_it_allocates() {
    let mut fs = fresh_fs();
    let d = fs.create(1, "big", 0o644, 0, 0).unwrap();
    let mut inode = fs.getattr(d.ino).unwrap();
    let (b, _) = fs.get_file_block(&mut inode, 20, true).unwrap();
    assert_ne!(b, 0);
    assert_ne!(inode.indirect_block, 0);
    assert_eq!(fs.file_block(&inode, 20), Ok((b, 0)));
    // Asking again hands back the same block without allocating.
    let again = fs.get_file_block(&mut inode, 20, true).unwrap();
    assert_eq!(again, (b, 0));
    assert_eq!(fs.file_block(&inode, 21), Ok((0, 0)));
    assert_eq!(fs.get_file_block(&mut inode, 522, true), Err(Errno::FileTooBig));
}
