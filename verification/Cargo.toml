[package]
name = "moor"
version = "0.1.0"
edition = "2021"
publish = false

[dependencies]
base64 = "=0.22.1"
crc32c = "=0.6.9"
libc = "=0.2.191"
serde = "=1.0.229"
serde_json = { version = "=1.0.154", features = ["preserve_order"] }
sha2 = "=0.10.9"
