[package]
name = "rust_practice"
version = "0.1.0"
edition = "2021"
publish = false

[dependencies]
rand = "0.8"
futures = "0.3"
async-std = "1"
mio = { version = "0.8", features = ["os-poll", "net"] }
tracing = "0.1"
tracing-subscriber = { version = "0.3", features = ["chrono"] }
