[package]
name = "lionfs"
version = "0.1.0"
edition = "2021"
publish = false

[dependencies]
chacha20 = "*"
crc32fast = "*"
fuser = { version = "*", default-features = false }
libc = "*"
log = "*"
env_logger = "*"
moka = { version = "*", features = ["sync"] }
rayon = "*"
bytemuck = { version = "*", features = ["derive"] }
