[package]
name = "caliptra-rom-patch"
version = "0.1.0"
edition = "2021"
publish = false

[dependencies]
anyhow = "1"
clap = { version = "4", features = ["derive"] }
deser-hjson = "2"
ed25519-dalek = "2"
env_logger = "0.11"
goblin = "0.9"
log = "0.4"
serde = { version = "1", features = ["derive"] }
