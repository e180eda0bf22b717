//! The object store.
pub mod tree;
