[package]
name = "mica"
version = "0.1.0"
edition = "2021"
publish = false

[dependencies]
arc-swap = "*"
compio = { version = "*", features = ["dispatcher", "time"] }
fast-telemetry = "*"
fjall = "*"
futures-util = "*"
rart = "*"
tracing = "*"
