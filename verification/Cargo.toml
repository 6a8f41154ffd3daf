[package]
name = "velos"
version = "0.1.0"
edition = "2021"
publish = false

[dependencies]
petgraph = "=0.6.5"
rayon = "=1.12.0"
postcard = { version = "=1.1.3", default-features = false, features = ["alloc"] }
serde = { version = "=1.0.229", features = ["derive"] }
thiserror = "=1.0.69"
log = "=0.4.35"
