[package]
name = "feedforward"
version = "0.1.0"
edition = "2021"
publish = false

[dependencies]
nalgebra = "0.33"
ndarray = "0.16"
rand = "0.8"
