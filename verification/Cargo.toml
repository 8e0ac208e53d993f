[package]
name = "qinhuai"
version = "0.1.0"
edition = "2021"
publish = false

[dependencies]
fs2 = "0.4"

[dev-dependencies]
rand = "0.8"
