[package]
name = "implicit_mesh"
version = "0.1.0"
edition = "2021"
publish = false

[dependencies]
cgmath = "*"
itertools = "*"
serde_json = "1"
