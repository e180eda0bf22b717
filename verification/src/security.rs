//! Access flags, encryption algorithms and keys.
pub mod acl;
pub mod encryption;
pub mod keys;
