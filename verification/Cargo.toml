[package]
name = "chainscan"
version = "0.1.0"
edition = "2021"
publish = false

[dependencies]
anyhow = "*"
arrow = { version = "*", default-features = false }
arrow-ipc = "*"
bincode = "*"
bitcoin = "*"
bitcoin_hashes = "*"
clap = { version = "*", features = ["derive"] }
hex = "*"
leveldb = "*"
rusty-leveldb = "*"
serde = { version = "*", features = ["derive"] }
serde_json = "*"
serde-wasm-bindgen = "*"
wasm-bindgen = "*"
