[package]
name = "autodiff"
version = "0.1.0"
edition = "2021"
publish = false

[dependencies]
graphviz-rust = "0.6"
ndarray = "0.15"
