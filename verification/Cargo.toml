[package]
name = "mpflow_plotting"
version = "0.1.0"
edition = "2021"
publish = false

[dependencies]
rustc-serialize = "=0.3.25"
num = "=0.4.3"
nalgebra = "=0.33.3"
glium = "=0.36.0"
