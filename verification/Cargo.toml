[package]
name = "sketch_index"
version = "0.1.0"
edition = "2021"
publish = false

[dependencies]
atomic_float = "*"
once_cell = "1"
serde = { version = "1", features = ["derive"] }
serde_json = "1"
typed-builder = "*"
