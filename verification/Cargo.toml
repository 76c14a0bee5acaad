[package]
name = "keyps"
version = "0.1.0"
edition = "2021"
publish = false

[dependencies]
url = "*"
reqwest = { version = "*", default-features = false, features = ["blocking", "rustls-tls"] }
clap = { version = "*", features = ["derive"] }
env_logger = "*"
log = "*"
signal-hook = "*"
itertools = "*"
thiserror = "*"
