//! The on-disk format: records and feature compatibility.
pub mod records;
pub mod upgrade;
