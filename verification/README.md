# LionFS

A FUSE filesystem kept in an encrypted, checksummed image file, with the
B-tree metadata engine, allocators, caches, integrity trees, pooling and
tuning components around it. The library in `src/` is written in Verus: its
functions carry `requires`/`ensures` contracts, proved by Verus.

- `src/store.rs`, `src/volume.rs`, `src/mount.rs`: the mounted filesystem.
  The image's blocks are held in a `BlockStore` that lists every block it
  changes; `DiskManager` keeps the superblock, bitmap and inode table in it;
  `LionFS` serves each request (lookup, read, write, create, mkdir, ...).
- `src/disk.rs`, `src/lionfs.rs`, `src/inode.rs`: the on-image formats of
  blocks (nonce and ChaCha20 sealing), superblock, bitmap, inodes, directory
  blocks and indirect blocks.
- `src/btree/`, `src/allocator/`, `src/directory/`, `src/file/`,
  `src/inode/`, `src/integrity/`, `src/fs/`, `src/pool/`, `src/optimizer/`,
  `src/cache/`, `src/recovery.rs`: the transactional metadata engine and the
  services built on it. Every B-tree node block carries a CRC-32 of its
  bytes, written with the node and checked when it is read.
- `app/`: the program. It reads the image into a `BlockStore`, mounts
  `LionFS` with FUSE, writes the changed blocks back (sealed under fresh
  random nonces) after each request, and holds the block device I/O and
  journal replay on devices.
