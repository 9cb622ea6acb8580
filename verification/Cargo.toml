[package]
name = "pm1"
version = "0.1.0"
edition = "2021"
publish = false

[dependencies]
num-bigint = "*"
num-integer = "*"
primal = "*"
clap = { version = "*", features = ["derive"] }
