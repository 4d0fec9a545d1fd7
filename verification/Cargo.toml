[package]
name = "op_propagation"
version = "0.1.0"
edition = "2021"
publish = false

[dependencies]
lazy_static = "1.4"
rand = "0.8"
