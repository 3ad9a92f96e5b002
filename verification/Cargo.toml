[package]
name = "stark_algebra"
version = "0.1.0"
edition = "2021"
publish = false

[dependencies]
num-bigint = "0.4"

[dev-dependencies]
rand = "0.8"
