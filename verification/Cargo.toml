[package]
name = "portable_home"
version = "0.1.0"
edition = "2021"
publish = false

[dependencies]
dirs = "7.0.0"
