[package]
name = "tageswort"
version = "0.1.0"
edition = "2021"
publish = false

[dependencies]
urlencoding = "2"
chrono = "0.4"
dirs = "*"
reqwest = { version = "0.12", default-features = false, features = ["blocking", "rustls-tls"] }
