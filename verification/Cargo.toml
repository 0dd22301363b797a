[package]
name = "forge_memory"
version = "0.1.0"
edition = "2021"
publish = false

[dependencies]
bincode = "1"
serde = { version = "1", features = ["derive"] }
sha2 = "0.10"
sled = "0.34"
uuid = { version = "1", features = ["v4", "serde"] }
