[package]
name = "mini_renderer"
version = "0.1.0"
edition = "2021"
publish = false

[dependencies]
rayon = "1.11"
libm = "0.2"
