[package]
name = "stringmap"
version = "0.1.0"
edition = "2021"
publish = false

[dependencies]
bumpalo = "3"

[dev-dependencies]
rand = "0.8"
