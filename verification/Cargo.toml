[package]
name = "exchange_matching_engine"
version = "0.1.0"
edition = "2021"
publish = false

[dependencies]
uuid = { version = "*", features = ["v4"] }
chrono = "*"
csv = "*"
serde = { version = "*", features = ["derive"] }
rust_decimal = "*"
rand = "*"
tracing = "*"
tracing-appender = "*"
tracing-subscriber = "*"
