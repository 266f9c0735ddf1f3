[package]
name = "mandelbrot"
version = "0.1.0"
edition = "2021"
publish = false

[dependencies]
num_cpus = "1"
clap = "2"
image = { version = "0.25", default-features = false, features = ["png"] }
rustc-serialize = "0.3"
time = "0.1"
