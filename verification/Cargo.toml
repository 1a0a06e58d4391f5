[package]
name = "mlist"
version = "0.1.0"
edition = "2021"
publish = false

[dependencies]
mailparse = "=0.12.2"
serde = { version = "=1.0.229", features = ["derive"] }
toml = "=1.1.7"
maildir = "=0.6.6"
fs2 = "=0.4.3"
