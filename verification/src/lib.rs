pub mod btree;
pub mod codec;
pub mod error;
pub mod kernel;
pub mod optimizer;
pub mod telemetry;
pub mod transaction;
pub mod pool;
pub mod security;
pub mod api;
pub mod fs;
pub mod fuse;
pub mod ondisk;
pub mod clock;
pub mod integrity;
pub mod directory;
pub mod object;
pub mod inode;
pub mod allocator;
pub mod disk;
pub mod lionfs;
pub mod recovery;
pub mod file;
pub mod cache;
pub mod store;
pub mod volume;
pub mod mount;

mod mount_dir;
mod mount_file;
