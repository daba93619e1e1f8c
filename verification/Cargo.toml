[package]
name = "cami_benches"
version = "0.1.0"
edition = "2021"
publish = false

[dependencies]
cami = "*"
fastrand = "*"
