//! Directories.
pub mod entries;
pub mod tree;
