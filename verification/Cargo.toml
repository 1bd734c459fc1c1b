[package]
name = "songsearch"
version = "0.1.0"
edition = "2021"
publish = false

[dependencies]
lasso2 = "*"
