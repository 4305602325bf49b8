//! Single-node backend: per-NUMA pinned DRAM pools as the store-owned tier,
//! GPUs as copy endpoints and (via `publish`) as external sources.
//!
//! The bytes themselves are moved outside: an operation hands out a plan, and
//! is told when it has been carried out. A replica's memory is given back only
//! when nothing refers to it any more: eviction can drop its reference while a
//! transfer is in flight, and the last reader returns the memory.
pub mod backend;
pub mod laws;
pub mod ledger;
pub mod oracle;
pub mod plans;
pub mod queue;
pub mod refusals;
pub mod rounds;
pub mod safety;
pub mod steps;
pub mod tables;
pub mod writes;
