[package]
name = "aeth"
version = "0.1.0"
edition = "2021"
publish = false

[dependencies]
rand = "=0.8.8"
plotters = "=0.3.7"
