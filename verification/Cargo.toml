[package]
name = "interner"
version = "0.1.0"
edition = "2021"
publish = false

[dependencies]
memchr = "2"
bytemuck = "1"
