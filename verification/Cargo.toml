[package]
name = "energy_market"
version = "0.1.0"
edition = "2021"
publish = false

[dependencies]
solana-program = "2"
borsh = { version = "1", features = ["derive"] }
