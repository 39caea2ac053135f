[package]
name = "exchange_matcher"
version = "0.1.0"
edition = "2021"
publish = false

[dependencies]
anyhow = "=1.0.104"
async-trait = "=0.1.92"
bytes = "=1.12.1"
chrono = "=0.4.45"
crossbeam-channel = "=0.5.17"
dashmap = "=6.2.1"
indexmap = "=2.14.2"
tokio = { version = "=1.54.1", features = ["rt-multi-thread", "macros", "net", "io-util", "sync", "signal"] }
tracing = "=0.1.44"
