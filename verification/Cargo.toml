[package]
name = "rt_datastructure"
version = "0.1.0"
edition = "2021"
publish = false

[dependencies]
regex = "*"
