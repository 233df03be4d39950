[package]
name = "defuse"
version = "0.1.0"
edition = "2021"
publish = false

[dependencies]
near-account-id = "=3.0.0"
near-sdk = { version = "=5.30.0", features = ["non-contract-usage"] }
near-contract-standards = "=5.30.0"
thiserror = "=2.0.21"
