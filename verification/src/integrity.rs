//! Data integrity: checksums, bad blocks and reference counts.
pub mod bad_blocks;
pub mod checksum_tree;
pub mod refcount;
