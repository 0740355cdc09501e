[package]
name = "based58"
version = "0.1.0"
edition = "2021"
publish = false

[dependencies]
sha2 = "*"

[dev-dependencies]
bs58 = { version = "*", features = ["check"] }
