[package]
name = "shred_decoder"
version = "0.1.0"
edition = "2021"
publish = false

[dependencies]
ahash = "0.8"
bincode = "1.3"
crossbeam-channel = "0.5"
itertools = "0.12"
rand = "0.8"
socket2 = "0.5"
solana-entry = "~2.0.25"
solana-net-utils = "~2.0.25"
solana-perf = "~2.0.25"
solana-sdk = "~2.0.25"
thiserror = "1"
tracing = "0.1"
