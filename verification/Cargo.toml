[package]
name = "pkgman"
version = "0.1.0"
edition = "2021"
publish = false

[dependencies]
base64 = "0.13"
serde = { version = "1", features = ["derive"] }
serde_derive = "1"
serde_json = "1"
toml = "*"
reqwest = { version = "0.11", default-features = false }
tokio = { version = "1", features = ["rt"] }
log = "0.4"
simple_logger = "*"
