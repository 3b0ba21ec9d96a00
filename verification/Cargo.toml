[package]
name = "dtn7"
version = "0.1.0"
edition = "2021"
publish = false

[dependencies]
url = "*"
bp7 = "*"

[dev-dependencies]
serde_cbor = "*"
