[package]
name = "pmm2vmd"
version = "0.1.0"
edition = "2021"
publish = false

[dependencies]
byteorder = "1"
encoding = "0.2"
