[package]
name = "yuk"
version = "0.1.0"
edition = "2021"
publish = false

[dependencies]
nix = "=0.26.4"
futures = { version = "=0.3.34", features = ["thread-pool"] }
