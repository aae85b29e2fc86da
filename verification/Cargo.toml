[package]
name = "scanbus_backends"
version = "0.1.0"
edition = "2021"
publish = false

[dependencies]
async-trait = "0.1"
flume = "0.11"
futures-core = "0.3"
futures-util = { version = "0.3", default-features = false, features = ["std"] }
mdns-sd = "0.13"
quick-xml = "0.38"
tempfile = "3"
thiserror = "2"
tokio = { version = "1", features = ["fs", "io-util", "macros", "net", "process", "rt", "sync", "time"] }
tracing = "0.1"
