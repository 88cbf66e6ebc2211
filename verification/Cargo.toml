[package]
name = "ceph-long-request-watcher"
version = "0.1.0"
edition = "2021"
publish = false

[dependencies]
futures = "0.3"
pretty_env_logger = "0.5"
prometheus = { version = "0.13", default-features = false }
regex = "1"
tokio = { version = "1", features = ["net", "rt", "time"] }
tracing = { version = "0.1", features = ["log"] }
warp = { version = "0.3", default-features = false }
