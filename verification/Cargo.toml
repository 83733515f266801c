[package]
name = "tx_datastore"
version = "0.1.0"
edition = "2021"
publish = false

[dependencies]
anyhow = "1"
clap = "4"
parking_lot = { version = "0.12", features = ["arc_lock"] }
reqwest = { version = "0.11", default-features = false }
serde = { version = "1", features = ["derive"] }
serde_json = { version = "1", features = ["raw_value"] }
sha3 = "0.10"
tabled = "0.8"
