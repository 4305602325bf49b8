//! Placement-aware immutable large-object cache.
pub mod access;
mod blob;
pub mod copy;
pub mod error;
pub mod gates;
pub mod index;
pub mod local;
pub mod machine;
pub mod numerals;
pub mod ops;
pub mod pinned;
pub mod rdma;
pub mod requests;
pub mod region;
pub mod services;
pub mod sorted;
pub mod store;
pub mod text;
pub mod topology;
pub mod types;
