[package]
name = "isar_core"
version = "0.1.0"
edition = "2021"
publish = false

[dependencies]
hashbrown = "*"
intmap = "0.7"
libc = "0.2"
lmdb-sys = "0.8"
serde = { version = "1", features = ["derive"] }
serde_json = "1"
