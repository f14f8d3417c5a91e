[package]
name = "abi_codec"
version = "0.1.0"
edition = "2021"
publish = false

[dependencies]
sha3 = "=0.12.0"
bs58 = { version = "=0.5.1", features = ["check"] }

[dev-dependencies]
hex = "=0.4.3"
