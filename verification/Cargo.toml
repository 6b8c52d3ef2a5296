[package]
name = "kalman_filter"
version = "0.1.0"
edition = "2021"
publish = false

[dependencies]
csv = "1"
nalgebra = "0.33"
