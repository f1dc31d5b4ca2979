[package]
name = "doze"
version = "0.1.0"
edition = "2021"
publish = false

[dependencies]
md-5 = "0.10"
hex = "0.4"
clap = { version = "4", features = ["derive"] }
inventory = "0.3"
tracing = "0.1"
tracing-appender = "0.2"
tracing-subscriber = { version = "0.3", features = ["env-filter", "fmt"] }
