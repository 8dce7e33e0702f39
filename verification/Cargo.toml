[package]
name = "ruv"
version = "0.1.0"
edition = "2021"
publish = false

[dependencies]
flate2 = "1"
pubgrub = "0.3"
toml = "0.8"
serde = { version = "1", features = ["derive"] }
serde_json = "1"
reqwest = { version = "0.12", default-features = false, features = ["blocking", "json", "rustls-tls"] }
bincode = "1"
clap = { version = "4", features = ["derive"] }
dirs = "5"
