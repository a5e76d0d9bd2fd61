[package]
name = "electrscash"
version = "3.0.0"
edition = "2021"
publish = false

[dependencies]
async-std = "=1.13.2"
base64 = "=0.13.1"
bincode = "=1.3.3"
bitcoin = { version = "=0.26.2", features = ["use-serde"] }
bitcoin_hashes = { version = "=0.9.7", features = ["serde"] }
hex = "=0.4.3"
log = "0.4"
prometheus = { version = "=0.13.4", default-features = false }
rust-crypto = "=0.2.36"
serde = { version = "=1.0.229", features = ["derive"] }
serde_json = "=1.0.154"
unsigned-varint = "=0.5.1"
