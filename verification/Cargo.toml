[package]
name = "thermo"
version = "0.1.0"
edition = "2021"
publish = false

[dependencies]
csv = "1"
rand = "0.8"
raylib = "*"
rayon = "1"
