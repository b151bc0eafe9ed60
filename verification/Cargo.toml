[package]
name = "flash_store"
version = "0.1.0"
edition = "2021"
publish = false

[dependencies]
bincode = "1"
bytes = "1"
clap = { version = "4", features = ["derive"] }
crc32fast = "1"
parking_lot = "0.12"
serde = { version = "1", features = ["derive"] }
serde_json = "1"
thiserror = "1"
