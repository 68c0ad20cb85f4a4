[package]
name = "f2m"
version = "0.1.0"
edition = "2021"
publish = false

[dependencies]
rust-lapper = "=1.3.0"
clap = "=4.6.7"
flate2 = "=1.1.10"
gzp = { version = "=2.0.4", default-features = false, features = ["deflate_rust"] }
