[package]
name = "flake_growth"
version = "0.1.0"
edition = "2021"
publish = false

[dependencies]
rand = "*"
