[package]
name = "aegisrlib"
version = "0.1.0"
edition = "2021"
publish = false

[dependencies]
aes-gcm = "*"
base64 = "*"
blake3 = "*"
rand_core = { version = "0.9", features = ["os_rng"] }
zeroize = "*"
clap = { version = "*", features = ["derive"] }
dirs-next = "*"
serde = { version = "*", features = ["derive"] }
serde_json = "*"
