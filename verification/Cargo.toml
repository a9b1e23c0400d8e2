[package]
name = "distcomp"
version = "0.1.0"
edition = "2021"
publish = false

[dependencies]
rusqlite = { version = "=0.40.2", features = ["bundled"] }
sodiumoxide = "=0.2.7"
serde = "=1.0.229"
serde_cbor = "=0.11.2"
uuid = "=1.27.0"
wasmi = "=2.0.0"
