[package]
name = "trashd"
version = "0.1.3"
edition = "2021"
publish = false

[dependencies]
chrono = "0.4"
clap = { version = "4", features = ["derive"] }
colored = "2"
dirs = "5"
flate2 = "1"
libc = "0.2"
rusqlite = { version = "0.31", features = ["bundled"] }
serde = { version = "1", features = ["derive"] }
serde_json = "1"
sha2 = "0.10"
tar = "0.4"
thiserror = "1"
toml = "0.8"
ureq = "3"
url = "2"
xxhash-rust = { version = "0.8", features = ["xxh3"] }
zstd = "0.13"
