[package]
name = "futures_ordered"
version = "0.1.0"
edition = "2021"
publish = false

[dependencies]
futures-core = "0.3"
