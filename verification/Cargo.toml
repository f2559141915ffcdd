[package]
name = "swiss_archive"
version = "0.1.0"
edition = "2021"
publish = false

[dependencies]
bytecheck = { version = "*", default-features = false }
rancor = "*"
