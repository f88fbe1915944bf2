[package]
name = "mandelbrot"
version = "0.1.0"
edition = "2021"
publish = false

[dependencies]
complex = "=0.7.5"
sfml = "=0.11.2"
