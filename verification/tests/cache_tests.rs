use lionfs::cache::dir_cache::DirCache;
use lionfs::cache::extent_cache::ExtentCache;
use lionfs::cache::inode_cache::InodeCache;
use lionfs::ondisk::records::{Extent, Inode};

fn inode(ino: u64) -> Inode {
    Inode {
        ino,
        mode: 0o100644,
        uid: 0,
        gid: 0,
        links_count: 1,
        flags: 0,
        padding1: 0,
        size: 10,
        ctime: 0,
        mtime: 0,
        atime: 0,
        extent_count: 0,
        compression_algo: 0,
        encryption_algo: 0,
        key_id: 0,
        extents: [Extent { logical_start: 0, physical_start: 0, length: 0 }; 7],
        checksum: 0,
    }
}

#[test]
fn dir_cache_gives_back_what_was_inserted_until_removed() {
    let mut cache = DirCache::new(100);
    assert!(cache.get(1, "a").is_none());
    cache.insert(1, "a", 7, 1);
    cache.insert(1, "a", 8, 2);
    let e = cache.get(1, "a").unwrap();
    assert_eq!((e.ino, e.file_type), (8, 2));
    assert!(cache.get(2, "a").is_none());
    cache.remove(1, "a");
    assert!(cache.get(1, "a").is_none());
}

#[test]
fn inode_cache_marks_cached_inodes_dirty() {
    let mut cache = InodeCache::new(100);
    cache.insert(3, inode(3), false);
    assert_eq!(cache.get(3).map(|i| i.ino), Some(3));
    cache.mark_dirty(3);
    cache.mark_dirty(4);
    assert!(cache.get(4).is_none());
    cache.remove(3);
    assert!(cache.get(3).is_none());
}

#[test]
fn extent_cache_keeps_extents_when_marked_dirty() {
    let mut cache = ExtentCache::new(100);
    let ext = vec![Extent { logical_start: 0, physical_start: 40, length: 2 }];
    cache.insert(5, ext.clone(), false);
    cache.mark_dirty(5);
    let got = cache.get(5).unwrap();
    assert!(got.dirty);
    assert_eq!(got.extents.len(), 1);
    assert_eq!(got.extents[0].physical_start, 40);
    cache.remove(5);
    assert!(cache.get(5).is_none());
}
