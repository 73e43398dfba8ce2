[package]
name = "mini_lsm"
version = "0.1.0"
edition = "2021"
publish = false

[dependencies]
crossbeam-skiplist = "*"
moka = { version = "*", features = ["sync"] }
parking_lot = "*"
anyhow = "*"
