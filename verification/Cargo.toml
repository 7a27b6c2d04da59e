[package]
name = "lsmkv"
version = "0.1.0"
edition = "2021"
publish = false

[dependencies]
async-broadcast = "*"
chrono = "0.4"
crossbeam-skiplist = "0.1"
indexmap = "2"
log = "0.4"
rand = "0.8"
thiserror = "1"
tokio = { version = "1", features = ["full"] }
uuid = { version = "1", features = ["v4"] }
