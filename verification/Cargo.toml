[package]
name = "chain_head_subscription"
version = "0.1.0"
edition = "2021"
publish = false

[dependencies]
console = "*"
futures = "0.3"
futures-timer = "3"
log = "0.4"
parking_lot = "0.12"
tokio = { version = "1", features = ["sync"] }
