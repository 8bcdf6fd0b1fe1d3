[package]
name = "filehash"
version = "0.1.0"
edition = "2021"
publish = false

[dependencies]
md4 = "*"
tiger = "*"
digest = "*"
data-encoding = "*"
