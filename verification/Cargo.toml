[package]
name = "magicfs"
version = "0.1.0"
edition = "2021"
publish = false

[dependencies]
fuser = { version = "=0.14.0", default-features = false }
libc = "=0.2.191"
serde = { version = "=1.0.229", features = ["derive"] }
serde_json = "=1.0.154"
