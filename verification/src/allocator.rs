//! Block allocation.
pub mod bitmap;
pub mod cache;
pub mod tree;
