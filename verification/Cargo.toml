[package]
name = "tomo"
version = "0.1.0"
edition = "2021"
publish = false

[dependencies]
blake3 = "1"
fastcdc = "3"
globset = "0.4"
postcard = { version = "1", features = ["use-std"] }
rusqlite = { version = "*", features = ["bundled"] }
russh = { version = "0.62", default-features = false, features = ["ring", "rsa", "flate2"] }
russh-sftp = "2"
serde = { version = "1", features = ["derive"] }
sha2 = "0.10"
thiserror = "2"
tokio = { version = "1", features = ["rt-multi-thread", "net", "time", "sync", "io-util", "macros"] }
toml = "0.8"
zstd = "0.13"
