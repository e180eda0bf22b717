//! In-memory caches of inodes, extents, directory entries and tree nodes,
//! kept in `moka` caches, which evict entries on their own.
pub mod dir_cache;
pub mod extent_cache;
pub mod inode_cache;
pub mod node_cache;
pub mod store;
