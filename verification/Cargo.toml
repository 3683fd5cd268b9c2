[package]
name = "littlefs_rust_core"
version = "0.1.0"
edition = "2021"
publish = false

[dependencies]
zerocopy = "0.8"
bitflags = "2"
