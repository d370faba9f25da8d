[package]
name = "khaslana_core"
version = "0.1.0"
edition = "2021"
publish = false

[dependencies]
encoding_rs = "0.8"
chardetng = "1"
serde = { version = "1", features = ["derive"] }
git2 = { version = "*", default-features = false }
keyring = "*"
keyring-core = "*"
