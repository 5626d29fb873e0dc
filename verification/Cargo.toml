[package]
name = "implicants"
version = "0.1.0"
edition = "2021"
publish = false

[dependencies]
fixedbitset = "=0.5.7"
libc = "=0.2.190"
