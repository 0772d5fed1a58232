[package]
name = "fractalz"
version = "0.1.0"
edition = "2021"
publish = false

[dependencies]
rand = "0.8"
image = "0.24"
num-complex = "0.4"
palette = "0.6"
chrono = "0.4"
png = "0.17"
