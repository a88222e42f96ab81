[package]
name = "hd-movies"
version = "3.0.0"
edition = "2021"
publish = false

[dependencies]
anyhow = "1"
chrono = "0.4"
clap = { version = "4", features = ["derive", "env"] }
reqwest = { version = "0.12", default-features = false, features = ["blocking", "json", "rustls-tls", "socks"] }
rusqlite = { version = "*", features = ["bundled"] }
scraper = "*"
serde_json = "1"
