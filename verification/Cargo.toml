[package]
name = "rcli"
version = "0.1.0"
edition = "2021"
publish = false

[dependencies]
anyhow = "1.0.81"
axum = "0.7.4"
chrono = "0.4"
clap = { version = "4.5.3", features = ["derive"] }
mime = "0.3"
mime_guess = "2"
tokio = { version = "1.36.0", features = ["rt", "rt-multi-thread", "macros", "net", "fs"] }
tokio-util = { version = "0.7", features = ["io"] }
tracing = "0.1.40"
zxcvbn = "2.2.2"

[dev-dependencies]
tempfile = "3"
