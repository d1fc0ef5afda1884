[package]
name = "dispatch"
version = "0.1.0"
edition = "2021"
publish = false

[dependencies]
solana-program = "=5.1.0"

[dev-dependencies]
borsh = { version = "=1.8.1", features = ["de_strict_order"] }
