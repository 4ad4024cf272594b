[package]
name = "meter_core"
version = "0.1.0"
edition = "2021"
publish = false

[dependencies]
zstd = "*"
serde = { version = "*", features = ["derive"] }
serde_json = "*"
bytes = "*"
tokio = { version = "*", default-features = false, features = ["sync"] }
once_cell = "*"
parking_lot = "*"
log = "*"
