[package]
name = "nbtworkbench"
version = "0.1.0"
edition = "2021"
publish = false

[dependencies]
zune-inflate = "*"
flate2 = "*"
