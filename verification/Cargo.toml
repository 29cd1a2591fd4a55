[package]
name = "mmr_forest"
version = "0.1.0"
edition = "2021"
publish = false

[dependencies]
winter-math = "*"
winter-crypto = "*"

[dev-dependencies]
winter-rand-utils = "*"
