[package]
name = "drmkit"
version = "0.1.0"
edition = "2021"
publish = false

[dependencies]
drm = "0.14"
libseat = "*"
rustix = { version = "1", features = ["event", "fs", "pipe", "time"] }
serde_json = "1"
thiserror = "2"
