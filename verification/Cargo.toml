[package]
name = "mint_client"
version = "0.1.0"
edition = "2021"
publish = false

[dependencies]
base64 = "0.13"
bincode = "1"
bitcoin_hashes = "0.11"
rand = "0.6"
serde = { version = "1", features = ["derive"] }
sled = "0.34"
structopt = "0.3"
tokio = { version = "1", features = ["rt-multi-thread", "macros", "net", "io-util"] }
tracing = "0.1"
tracing-subscriber = { version = "0.3", features = ["env-filter"] }
