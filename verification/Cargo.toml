[package]
name = "totalistic"
version = "0.1.0"
edition = "2021"
publish = false

[dependencies]
clappers = "*"
crossbeam = "*"
ndarray = "*"
ndarray-npy = "*"
ndarray-rand = "*"
