//! Volume-level features: clones, snapshots, subvolumes, compression and
//! deduplication.
pub mod clones;
pub mod compression;
pub mod dedupe;
pub mod snapshots;
pub mod volumes;
