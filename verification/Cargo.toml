[package]
name = "http_load_balancer"
version = "0.1.0"
edition = "2021"

[dependencies]
rand = "=0.8.8"
tokio = { version = "=1.53.2", features = ["net", "io-util", "rt-multi-thread", "macros", "sync"] }
