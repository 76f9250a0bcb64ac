[package]
name = "mtdynamic"
version = "0.1.0"
edition = "2021"
publish = false

[dependencies]
rand = "0.9"
permutation = "0.4"
libc = "0.2"
