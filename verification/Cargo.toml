[package]
name = "vfs_core"
version = "0.1.0"
edition = "2021"
publish = false

[dependencies]
crc32fast = "1"
mime_guess = "2"
image = { version = "0.24", default-features = false, features = ["png", "jpeg"] }
tokio = { version = "1", features = ["rt-multi-thread", "macros", "fs", "io-util", "process", "time", "sync"] }
walkdir = "2"
clokwerk = "0.4"
chrono = "0.4"
