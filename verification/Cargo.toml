[package]
name = "holdem_table"
version = "0.1.0"
edition = "2021"
publish = false

[dependencies]
rand = "=0.8.8"
rand_chacha = "=0.3.1"
sha2 = "=0.10.9"
rs_poker = { version = "=4.1.0", default-features = false }
serde = { version = "=1.0.229", features = ["derive"] }
serde-json-wasm = "=1.0.1"
schemars = "=0.8.22"
cosmwasm-std = "=1.5.11"
