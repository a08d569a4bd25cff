[package]
name = "joy_of_mixing"
version = "0.1.0"
edition = "2021"
publish = false

[dependencies]
argh = "0.1"
itertools = "0.14"
nalgebra = "0.33"
