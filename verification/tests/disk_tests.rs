use lionfs::disk::{
    bitmap_release, bitmap_take_first_free, find_free_inode, initial_bitmap, inode_location, open_block,
    payload_is_zero, seal_block, Superblock, MAGIC, TOTAL_BLOCKS,
};
use lionfs::inode::{DirEntry, DiskInode, IndirectBlock, KIND_DIR, KIND_FILE, PAYLOAD_SIZE};
use lionfs::lionfs::{
    block_entries, clear_slot, encode_name, find_free_slot, find_named_slot, indirect_get, indirect_set_block,
    indirect_set_checksum, write_slot, Errno,
};

fn bit(bm: &[u8], b: usize) -> bool {
    bm[b / 8] & (1 << (b % 8)) != 0
}

#[test]
fn sealed_block_opens_to_its_payload() {
    let mut payload = vec![0u8; PAYLOAD_SIZE];
    payload[0] = 1;
    payload[4079] = 0xAB;
    let raw = seal_block(&payload, [7u8; 12]);
    assert_eq!(raw.len(), 4096);
    assert_eq!(&raw[0..12], &[7u8; 12]);
    assert_eq!(&raw[12..16], &[0u8; 4]);
    // The payload is stored encrypted.
    assert_ne!(&raw[16..], &payload[..]);
    assert_eq!(open_block(&raw), payload);
}

#[test]
fn zero_payload_is_stored_plain() {
    let payload = vec![0u8; PAYLOAD_SIZE];
    let raw = seal_block(&payload, [9u8; 12]);
    assert_eq!(raw, vec![0u8; 4096]);
    assert_eq!(open_block(&raw), payload);
    assert!(payload_is_zero(&payload));
    assert!(!payload_is_zero(&[0, 0, 1]));
}

#[test]
fn superblock_round_trips_through_its_payload() {
    let sb = Superblock::format();
    assert_eq!(sb.magic, MAGIC);
    assert_eq!(sb.block_size, 4096);
    assert_eq!(sb.total_blocks, TOTAL_BLOCKS);
    assert_eq!(sb.free_blocks, TOTAL_BLOCKS - 35);
    assert_eq!(sb.root_ino, 1);
    let p = sb.to_payload();
    assert_eq!(p.len(), PAYLOAD_SIZE);
    assert_eq!(&p[0..4], &MAGIC.to_le_bytes());
    assert_eq!(Superblock::from_payload(&p), sb);
}

#[test]
fn initial_bitmap_reserves_metadata_blocks() {
    let bm = initial_bitmap();
    assert_eq!(bm.len(), PAYLOAD_SIZE);
    for b in 0..34 {
        assert!(bit(&bm, b));
    }
    assert!(!bit(&bm, 34));
    assert!(bit(&bm, TOTAL_BLOCKS as usize - 1));
    assert!(!bit(&bm, TOTAL_BLOCKS as usize - 2));
}

#[test]
fn take_first_free_then_release() {
    let mut bm = initial_bitmap();
    let original = bm.clone();
    assert_eq!(bitmap_take_first_free(&mut bm), Some(34));
    assert!(bit(&bm, 34));
    assert_eq!(bitmap_take_first_free(&mut bm), Some(35));
    assert!(bitmap_release(&mut bm, 35));
    assert!(bitmap_release(&mut bm, 34));
    assert_eq!(bm, original);
    // Block 0 and blocks past the store are never released.
    assert!(!bitmap_release(&mut bm, 0));
    assert!(!bitmap_release(&mut bm, TOTAL_BLOCKS));
    // A block already free is not released again.
    assert!(!bitmap_release(&mut bm, 100));
}

#[test]
fn full_bitmap_has_no_free_block() {
    let mut bm = vec![0xFFu8; PAYLOAD_SIZE];
    let before = bm.clone();
    assert_eq!(bitmap_take_first_free(&mut bm), None);
    assert_eq!(bm, before);
}

#[test]
fn inode_locations() {
    assert_eq!(inode_location(0), None);
    assert_eq!(inode_location(1), Some((2, 256)));
    assert_eq!(inode_location(15), Some((3, 0)));
    assert_eq!(inode_location(1023), Some((70, 3 * 256)));
    assert_eq!(inode_location(1024), None);
}

#[test]
fn free_inode_slot_skips_inode_zero() {
    let mut payload = vec![0u8; PAYLOAD_SIZE];
    // Block 2 holds inodes 0 to 14: slot 1 is used.
    payload[256 + 60..256 + 64].copy_from_slice(&KIND_DIR.to_le_bytes());
    assert_eq!(find_free_inode(2, &payload), Some(2));
    assert_eq!(find_free_inode(3, &payload), Some(15));
    let full = {
        let mut p = vec![0u8; PAYLOAD_SIZE];
        for i in 0..15 {
            p[i * 256 + 60..i * 256 + 64].copy_from_slice(&KIND_FILE.to_le_bytes());
        }
        p
    };
    assert_eq!(find_free_inode(3, &full), None);
}

#[test]
fn disk_inode_round_trips() {
    let mut d = DiskInode::new(5, 1, KIND_FILE, 0o644, 1000, 100);
    assert_eq!(d.nlink, 1);
    assert_eq!(d.size, 0);
    d.size = 12345;
    d.direct_blocks[3] = 77;
    d.direct_checksums[11] = 0xDEAD;
    d.indirect_block = 99;
    let bytes = d.to_bytes();
    assert_eq!(bytes.len(), 256);
    let back = DiskInode::from_bytes(&bytes, 0);
    assert_eq!(back.ino, 5);
    assert_eq!(back.parent, 1);
    assert_eq!(back.size, 12345);
    assert_eq!(back.direct_blocks[3], 77);
    assert_eq!(back.direct_checksums[11], 0xDEAD);
    assert_eq!(back.indirect_block, 99);
    assert_eq!(back.kind, KIND_FILE);
    assert_eq!(back.mode, 0o644);
    let dir = DiskInode::new(6, 1, KIND_DIR, 0o755, 0, 0);
    assert_eq!(dir.nlink, 2);
}

#[test]
fn indirect_pointers_and_checksums() {
    let mut p = vec![0u8; PAYLOAD_SIZE];
    indirect_set_block(&mut p, 3, 1234);
    indirect_set_checksum(&mut p, 3, 0xCAFE);
    indirect_set_block(&mut p, 509, 7);
    assert_eq!(indirect_get(&p, 3), (1234, 0xCAFE));
    assert_eq!(indirect_get(&p, 509), (7, 0));
    assert_eq!(indirect_get(&p, 4), (0, 0));
    let ib = IndirectBlock::from_payload(&p);
    assert_eq!(ib.blocks[3], 1234);
    assert_eq!(ib.checksums[3], 0xCAFE);
}

#[test]
fn names_are_padded_or_refused() {
    let f = encode_name(b"abc").unwrap();
    assert_eq!(&f[0..3], b"abc");
    assert!(f[3..].iter().all(|b| *b == 0));
    assert!(encode_name(&[b'x'; 56]).is_ok());
    assert_eq!(encode_name(&[b'x'; 57]), Err(Errno::NameTooLong));
}

#[test]
fn directory_block_slots() {
    let mut p = vec![0u8; PAYLOAD_SIZE];
    assert_eq!(find_free_slot(&p), Some(0));
    let a = DirEntry { ino: 10, name: encode_name(b"a.txt").unwrap() };
    let b = DirEntry { ino: 11, name: encode_name(b"b").unwrap() };
    write_slot(&mut p, 0, &a);
    write_slot(&mut p, 2, &b);
    assert_eq!(find_free_slot(&p), Some(1));
    assert_eq!(find_named_slot(&p, b"b"), Some((2, 11)));
    assert_eq!(find_named_slot(&p, b"a.txt"), Some((0, 10)));
    assert_eq!(find_named_slot(&p, b"a"), None);
    let listed = block_entries(&p);
    assert_eq!(listed.len(), 2);
    assert_eq!(listed[0].ino, 10);
    assert_eq!(listed[1].ino, 11);
    assert_eq!(listed[1].name_len(), 1);
    clear_slot(&mut p, 0);
    assert_eq!(find_named_slot(&p, b"a.txt"), None);
    assert_eq!(find_free_slot(&p), Some(0));
    let round = DirEntry::from_bytes(&b.to_bytes(), 0);
    assert_eq!(round.ino, 11);
    assert_eq!(round.name, b.name);
}

