[package]
name = "lending_async_iter"
version = "0.1.0"
edition = "2021"
publish = false

[dependencies]
pin-project = "1"
embassy-net = { version = "*", features = ["tcp", "proto-ipv4", "medium-ethernet"] }
