[package]
name = "ooze_ordering"
version = "0.1.0"
edition = "2021"
publish = false

[dependencies]
sha2 = "=0.11.1"
rand = "=0.9.5"
rand_chacha = "=0.9.0"
solana-keypair = "=3.1.2"
solana-pubkey = "=4.2.1"
solana-signature = { version = "=3.4.1", features = ["verify"] }
solana-signer = "=3.0.1"
agave-scheduling-utils = { version = "=4.2.2", features = ["agave-unstable-api"] }
solana-cost-model = { version = "=4.2.2", features = ["agave-unstable-api"] }
solana-runtime-transaction = { version = "=4.2.2", features = ["agave-unstable-api"] }
crossbeam-channel = "=0.5.17"
log = "=0.4.35"
serde = { version = "=1.0.229", features = ["derive"] }
serde-big-array = "=0.5.1"
thiserror = "=2.0.21"
