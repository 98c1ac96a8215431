[package]
name = "ots_client"
version = "0.1.0"
edition = "2021"
publish = false

[dependencies]
bitcoin_hashes = "*"
rand = "*"
chrono = "*"
camino = "*"
clap = { version = "*", features = ["derive"] }
reqwest = { version = "*", default-features = false, features = ["blocking"] }
electrum-client = "*"

[dev-dependencies]
opentimestamps = "*"
rs_merkle = "*"
hex = "*"
