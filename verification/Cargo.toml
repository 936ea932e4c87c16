[package]
name = "latebra"
version = "0.1.0"
edition = "2021"
publish = false

[dependencies]
bech32 = "0.11"
blake3 = { version = "1", features = ["pure"] }
hex = "0.4"
rand = "0.8"
redb = "3"
sha2 = "0.10"
