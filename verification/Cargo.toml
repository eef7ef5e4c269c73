[package]
name = "phoenixdb"
version = "4.0.0"
edition = "2021"
publish = false

[dependencies]
crc32fast = "1"
lru = "0.12"
parking_lot = "0.12"
serde = { version = "1", features = ["derive"] }
serde_json = "1"
bincode = "1.3"
libc = "0.2"

[dev-dependencies]
tempfile = "3"
