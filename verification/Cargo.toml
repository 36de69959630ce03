[package]
name = "async_tar"
version = "0.1.0"
edition = "2021"
publish = false

[dependencies]
async-std = "1"
pin-cell = "*"
pin-project = "1"
