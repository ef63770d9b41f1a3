[package]
name = "flexfind"
version = "0.1.0"
edition = "2021"
publish = false

[dependencies]
memchr = "2"
chrono = "0.4"
base64 = "0.22"
image = { version = "0.25", default-features = false, features = ["png"] }
bincode = "1"
serde = { version = "1", features = ["derive"] }
serde_json = "1"
walkdir = "2"
sysinfo = "*"
