[package]
name = "hybit"
version = "0.6.0"
edition = "2021"
publish = false

[dependencies]
rayon = "1"
