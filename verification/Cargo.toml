[package]
name = "hyperdex"
version = "0.1.0"
edition = "2021"
publish = false

[dependencies]
libc = "0.2"
rustc-serialize = "0.3"
