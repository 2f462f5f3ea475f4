[package]
name = "webmon"
version = "0.1.0"
edition = "2021"
publish = false

[dependencies]
regex = "1"
similar = "2"
anyhow = "1"
chrono = "0.4"
clap = { version = "4", features = ["derive"] }
fern = "0.6"
log = "0.4"
reqwest = { version = "0.12", default-features = false, features = ["blocking", "rustls-tls"] }
serde = { version = "1", features = ["derive"] }
toml = "0.8"
