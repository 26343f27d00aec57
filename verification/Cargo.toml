[package]
name = "julia_mandelbrot"
version = "0.1.0"
edition = "2021"
publish = false

[dependencies]
num = "0.4"
pixels = "0.13"
rayon = "1"
slice-of-array = "*"
winit = "0.28"
