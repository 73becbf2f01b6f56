[package]
name = "strdata"
version = "0.1.0"
edition = "2021"
publish = false

[dependencies]
ascii = "1.1"
libc = "0.2"
