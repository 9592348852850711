[package]
name = "vectool"
version = "0.1.0"
edition = "2021"
publish = false

[dependencies]
rulinalg = "*"
regex = "*"
lazy_static = "*"
clap = "2"
