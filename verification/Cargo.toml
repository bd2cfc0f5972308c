[package]
name = "geotiff"
version = "0.1.0"
edition = "2021"
publish = false

[dependencies]
thiserror = "1"
weezl = "0.1"
