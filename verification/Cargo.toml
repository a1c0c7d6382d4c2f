[package]
name = "sidebar_swatches"
version = "0.1.0"
edition = "2021"
publish = false

[dependencies]
anyhow = "1"
futures-util = "0.3"
ignore = "0.4"
log = "0.4"
tokio = { version = "1", features = ["rt", "time", "sync", "macros"] }
unicode-width = "=0.1.12"
