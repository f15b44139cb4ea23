[package]
name = "looper"
version = "0.1.0"
edition = "2021"
publish = false

[dependencies]
cpal = "0.16"
crossterm = "0.29"
