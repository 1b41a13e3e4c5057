[package]
name = "sillad-sosistab3"
version = "0.1.0"
edition = "2021"
publish = false

[dependencies]
anyhow = "=1.0.104"
argh = "=0.1.19"
blake3 = "=1.8.7"
futures-util = { version = "=0.3.34", features = ["io"] }
hex = "=0.4.3"
pin-project = "=1.1.13"
rand = "=0.8.8"
serde = { version = "=1.0.229", features = ["derive"] }
serde_json = "=1.0.154"
sillad = "=0.2.10"
smolscale = "=0.4.16"
tracing = "=0.1.44"
tracing-subscriber = "=0.3.23"
