[package]
name = "cbor_rpc"
version = "0.1.0"
edition = "2021"
publish = false

[dependencies]
bytes = "1"

[dev-dependencies]
ciborium = "0.2"
