//! Reading and writing the contents of files.
pub mod writer;
