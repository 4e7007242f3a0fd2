[package]
name = "revius"
version = "1.0.0"
edition = "2021"
publish = false

[dependencies]
blake3 = "1"
hex = "0.4"
fastcdc = "3"
zstd = "0.13"
rusqlite = { version = "0.31", features = ["bundled"] }
clap = { version = "4", features = ["derive"] }
colored = "2"
dirs = "5"
serde = { version = "1", features = ["derive"] }
toml = "0.8"
uuid = { version = "1", features = ["v4"] }
thiserror = "1"
