[package]
name = "ecm"
version = "0.1.0"
edition = "2021"
publish = false

[dependencies]
rust-gmp = "0.5"
