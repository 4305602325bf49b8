//! RDMA transfer engine: which NIC carries what, who is connected to whom, and
//! how registrations and handshakes travel. The verbs themselves are called
//! outside.
pub mod batch;
pub mod descriptor;
pub mod engine;
pub mod hosts;
pub mod links;
pub mod nics;
pub mod nodes;
pub mod numa;
pub mod ports;
pub mod promises;
pub mod reports;
pub mod summary;
pub mod transfer;
