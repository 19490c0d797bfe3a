[package]
name = "perspective_diff_sync"
version = "0.1.0"
edition = "2021"
publish = false

[dependencies]
base64ct = { version = "1", features = ["alloc"] }
bincode = "1"
indexmap = "1"
petgraph = "0.6"
serde = { version = "1", features = ["derive"] }
sha2 = "0.10"
