[package]
name = "routetype"
version = "0.1.0"
edition = "2021"
publish = false

[dependencies]
percent-encoding = "=2.3.2"
hyper = { version = "=0.14.32", features = ["server", "http1", "tcp"] }
async-trait = "=0.1.92"
anyhow = "=1.0.104"
uuid = { version = "=0.8.2", features = ["v4"] }
log = "=0.4.34"
tokio = { version = "=1.54.1", features = ["rt-multi-thread", "macros"] }
