[package]
name = "tinypointers"
version = "0.1.0"
edition = "2021"
publish = false

[dev-dependencies]
ahash = "0.8"
fxhash = "0.2"
rand = "0.8"
