[package]
name = "logregator"
version = "0.1.0"
edition = "2021"
publish = false

[dependencies]
anyhow = "1"
bytes = "1"
clap = { version = "4", features = ["derive"] }
color-eyre = "0.6"
console-subscriber = "*"
futures = "0.3"
hdrhistogram = { version = "7", default-features = false }
owo-colors = "4"
rand = "*"
serde = { version = "1", features = ["derive"] }
serde_json = "1"
tokio = { version = "1", features = ["net", "sync", "rt", "rt-multi-thread", "macros", "time", "io-util"] }
tokio-stream = "0.1"
tokio-util = { version = "0.7", features = ["codec"] }
tracing = "0.1"
tracing-appender = "0.2"
tracing-flame = "0.2"
tracing-subscriber = "0.3"
