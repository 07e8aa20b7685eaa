[package]
name = "tref"
version = "0.4.0"
edition = "2021"
publish = false

[dependencies]
socarel = "*"

[dev-dependencies]
regex = "1"
