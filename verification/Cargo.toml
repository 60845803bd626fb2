[package]
name = "trace0"
version = "0.1.0"
edition = "2021"
publish = false

[dependencies]
ahash = "0.8"
clap = { version = "4", features = ["derive"] }
libc = "0.2"
parking_lot = "0.12"
prost = "0.14"
pyo3 = { version = "0.27", features = ["extension-module"] }
quanta = "0.12"
rtrb = "0.3"
serde_json = "1"
