[package]
name = "mini_lsm"
version = "0.1.0"
edition = "2021"
publish = false

[dependencies]
anyhow = "=1.0.104"
bytes = "=1.12.1"
crc32fast = "=1.5.4"
crossbeam-channel = "=0.5.17"
crossbeam-skiplist = "=0.1.3"
farmhash = "=1.1.5"
moka = { version = "0.12", features = ["sync"] }
parking_lot = "=0.12.5"
serde = { version = "=1.0.229", features = ["derive"] }
serde_json = "=1.0.154"
