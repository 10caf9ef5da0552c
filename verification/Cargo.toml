[package]
name = "theorem_format"
version = "0.1.0"
edition = "2021"
publish = false

[dependencies]
ethnum = "=1.5.3"
indexmap = "=2.14.2"
petgraph = "0.8"
