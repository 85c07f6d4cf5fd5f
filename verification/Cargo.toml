[package]
name = "orion"
version = "0.1.0"
edition = "2021"
publish = false

[dependencies]
anyhow = "1"
argon2 = "0.5"
arrayvec = "0.7"
bip39 = "2"
blake3 = { version = "1", features = ["pure"] }
clap = { version = "4", features = ["derive", "env"] }
dashmap = "5"
env_logger = "0.11"
futures = "0.3"
log = "0.4"
multiaddr = "0.18"
parity-scale-codec = "3"
rand = "0.8"
rand_chacha = "0.3"
rand_core = "0.6"
thiserror = "1"
tokio = { version = "1", features = ["rt", "rt-multi-thread", "macros", "sync", "time"] }
