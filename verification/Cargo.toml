[package]
name = "bittorrent_core"
version = "0.1.0"
edition = "2021"
publish = false

[dependencies]
anyhow = "*"
clap = { version = "*", features = ["derive"] }
hex = "*"
reqwest = { version = "*", default-features = false }
serde = { version = "*", features = ["derive"] }
serde_bencode = "*"
serde_bytes = "*"
serde_json = "*"
serde_urlencoded = "*"
sha1 = "*"
thiserror = "*"
tokio = { version = "*", features = ["macros", "rt-multi-thread"] }
