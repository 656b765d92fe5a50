[package]
name = "git-wasip2"
version = "0.1.0"
edition = "2021"
publish = false

[dependencies]
gix = "*"

[dev-dependencies]
tempfile = "*"
