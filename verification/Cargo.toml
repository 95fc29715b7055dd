[package]
name = "xtask"
version = "0.1.0"
edition = "2021"
publish = false

[dependencies]
clap = { version = "4", features = ["derive"] }
miette = "7"
serde_json = "1"
thiserror = "2"
tracing-subscriber = { version = "0.3", features = ["env-filter"] }
