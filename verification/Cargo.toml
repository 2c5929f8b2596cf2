[package]
name = "icfpc2023"
version = "0.1.0"
edition = "2021"
publish = false

[dependencies]
aes-gcm = "=0.9.4"
anyhow = "=1.0.104"
glob = "=0.3.4"
hex = "=0.4.3"
mysql = { version = "=28.0.4", default-features = false, features = ["minimal-rust"] }
num = "=0.4.3"
rand = "=0.8.8"
regex = "=1.13.1"
reqwest = { version = "0.11", default-features = false, features = ["json", "rustls-tls"] }
resvg = "0.35"
serde = { version = "=1.0.229", features = ["derive"] }
serde_json = { version = "=1.0.154", features = ["float_roundtrip"] }
svg = "0.13"
