[package]
name = "exact_algebra"
version = "0.1.0"
edition = "2021"
publish = false

[dependencies]
fmtastic = "*"
num-traits = "*"
