[package]
name = "mandelbrot"
version = "0.1.0"
edition = "2021"
publish = false

[dependencies]
crossbeam = "0.8.4"
num-complex = "0.4"
png = "0.17"
