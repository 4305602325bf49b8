[package]
name = "pegastore"
version = "0.1.0"
edition = "2021"
publish = false

[dependencies]
bincode = { version = "2", features = ["serde"] }
bytes = "1"
cudarc = { version = "*", default-features = false, features = ["std", "driver", "dynamic-loading", "cuda-12080"] }
futures = "0.3"
libc = "0.2"
log = "0.4"
mea = "*"
parking_lot = "0.12"
sideway = "*"
tracing = "0.1"
