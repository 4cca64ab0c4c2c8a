[package]
name = "luminal"
version = "0.1.0"
edition = "2021"
publish = false

[dependencies]
itertools = "0.11"
matrixmultiply = "0.3"
petgraph = "0.6"
