[package]
name = "reqtrace"
version = "0.1.0"
edition = "2021"
publish = false

[dependencies]
anyhow = "1"
axum = "*"
clap = { version = "4", features = ["derive"] }
globset = "0.4"
proquint = "*"
quote = "1"
proc-macro2 = { version = "1", features = ["span-locations"] }
regex = "1"
serde = { version = "1", features = ["derive"] }
serde_json = "1"
syn = { version = "2", features = ["full", "visit", "extra-traits"] }
tokio = { version = "1", features = ["full"] }
tokio-stream = "0.1"
toml = "*"
walkdir = "2"
