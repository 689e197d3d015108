[package]
name = "diary_store"
version = "0.1.0"
edition = "2021"
publish = false

[dependencies]
aes-gcm = "0.10"
base64 = "0.22"
blake3 = "1"
rand_core = { version = "0.9", features = ["os_rng"] }
uuid = { version = "1", features = ["v4"] }
