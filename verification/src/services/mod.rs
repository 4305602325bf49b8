//! Backends.
pub mod accounting;
pub mod answers;
pub mod arrival;
pub mod building;
pub mod evict;
pub mod history;
pub mod laws;
pub mod memory;
pub mod model;
pub mod order;
pub mod placing;
pub mod reading;
pub mod removing;
pub mod room;
pub mod state;
