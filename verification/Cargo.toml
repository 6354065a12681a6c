[package]
name = "deepwalk"
version = "0.1.0"
edition = "2021"
publish = false

[dependencies]
rand = "0.8"
nalgebra = { version = "0.32", features = ["rand"] }
crossbeam = "0.8"
serde = { version = "1", features = ["derive"] }
serde_json = "1"
