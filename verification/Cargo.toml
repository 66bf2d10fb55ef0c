[package]
name = "lsm_store"
version = "0.1.0"
edition = "2021"
publish = false

[dependencies]
crossbeam-skiplist = "0.1"
uuid = { version = "1", features = ["v4"] }
chrono = { version = "0.4", default-features = false, features = ["now"] }
rand = "0.8"
indexmap = "2"
async-broadcast = "*"
tokio = { version = "1", features = ["fs", "io-util", "sync", "rt"] }
log = "0.4"
