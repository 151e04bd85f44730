[package]
name = "de-solana-client"
version = "0.1.0"
edition = "2021"
publish = false

[dependencies]
async-trait = "0.1"
base58 = "0.2"
solana-account-decoder = "=1.18.26"
solana-rpc-client = { version = "=1.18.26", default-features = false }
solana-rpc-client-api = "=1.18.26"
solana-sdk = "=1.18.26"
thiserror = "1"
tokio = { version = "1", features = ["time"] }
tracing = "0.1"
url = "=2.4.1"
