[package]
name = "takuzu"
version = "0.1.0"
edition = "2021"
publish = false

[dependencies]
varisat = "0.2"
rocket = "0.5"
reqwest = { version = "0.11", default-features = false, features = ["rustls-tls", "blocking"] }
tokio = { version = "1", features = ["fs", "sync", "rt"] }
rand = "0.8"
