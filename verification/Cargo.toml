[package]
name = "fractal"
version = "0.1.0"
edition = "2021"
publish = false

[dependencies]
bmp = "*"
clap = "2"
num = "*"
rand = "0.8"
rayon = "*"
