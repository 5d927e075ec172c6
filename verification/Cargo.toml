[package]
name = "syntecnia_serve"
version = "0.1.0"
edition = "2021"
publish = false

[dependencies]
flate2 = "1"
indexmap = "2"
rustls = { version = "0.23", default-features = false, features = ["ring", "std", "tls12"] }
rustls-pemfile = "2"
serde_json = "1"
