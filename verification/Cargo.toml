[package]
name = "gav"
version = "0.2.0"
edition = "2021"
publish = false

[dependencies]
clap = "2"
euclid = "*"
minifb = "*"
rand = "0.8"
raqote = "*"
