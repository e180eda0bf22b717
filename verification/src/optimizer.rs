//! Policies that tune the filesystem from what it observes.
pub mod adaptive_cache;
pub mod policy;
pub mod predictor;
pub mod recommender;
pub mod scheduler;
pub mod api;
