[package]
name = "intmap"
version = "3.0.1"
edition = "2021"
publish = false

[dev-dependencies]
rand = "0.8"
