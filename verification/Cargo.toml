[package]
name = "itools"
version = "0.1.0"
edition = "2021"
publish = false

[dependencies]
sha2 = "*"
image = "0.23"
img_hash = "3"
clap = "*"
walkdir = "*"
indicatif = "*"
console = "*"
