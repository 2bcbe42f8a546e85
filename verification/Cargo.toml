[package]
name = "credibility_engine"
version = "0.1.0"
edition = "2021"
publish = false

[dependencies]
hex = "=0.4.3"
near-sdk = { version = "=5.29.1", features = ["legacy", "non-contract-usage"] }
