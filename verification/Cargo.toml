[package]
name = "ksuid"
version = "0.2.0"
edition = "2021"
publish = false

[dependencies]
byteorder = "1"
chrono = { version = "0.4", default-features = false, features = ["clock"] }
failure = "0.1"
rand = "0.8"
