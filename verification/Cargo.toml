[package]
name = "solana_program_fingerprint"
version = "0.1.0"
edition = "2021"
publish = false

[dependencies]
goblin = "0.8"
sha2 = "0.10"
serde = { version = "1", features = ["derive"] }
serde_json = "1"
clap = { version = "4", features = ["derive"] }
walkdir = "2"
