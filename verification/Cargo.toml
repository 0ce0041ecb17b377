[package]
name = "kave"
version = "0.1.0"
edition = "2021"
publish = false

[dependencies]
async-trait = "0.1"
bincode = "1"
bloom-filter-rs = "*"
bytes = "1"
rb_tree = "*"
thiserror = "1"
tokio = { version = "1", features = ["io-util", "macros", "net", "rt", "sync"] }
tokio-rustls = "0.23"
tracing = "0.1"
uuid = "1"
