[package]
name = "sorts"
version = "0.1.0"
edition = "2021"
publish = false

[dependencies]
rand = "0.8"

[dev-dependencies]
quickcheck = { version = "1", default-features = false }
