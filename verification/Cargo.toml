[package]
name = "sharp_vm"
version = "0.1.0"
edition = "2021"

[dependencies]
byteorder = "1"
