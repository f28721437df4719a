[package]
name = "puzla"
version = "0.1.0"
edition = "2021"
publish = false

[dependencies]
image = "*"
image-compare = "*"
dialoguer = "*"
show-image = "*"
