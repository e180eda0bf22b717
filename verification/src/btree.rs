//! The B+tree metadata engine.
pub mod node;
pub mod tree;
