//! Multi-device pools: device records, health, placement and repair.
pub mod device;
pub mod health;
pub mod manager;
pub mod raid;
pub mod recovery;
pub mod replication;
