[package]
name = "hydra_math"
version = "0.1.0"
edition = "2021"
publish = false

[dependencies]
spl-math = "0.1"
