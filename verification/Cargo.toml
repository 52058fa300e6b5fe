[package]
name = "poly"
version = "0.1.0"
edition = "2021"
publish = false

[dependencies]
starkom-bluesky = "=2.1.0"
ff = "0.13"

[dev-dependencies]
rand_core = { version = "0.6", features = ["getrandom"] }
