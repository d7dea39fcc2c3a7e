[package]
name = "cargo_trim"
version = "0.1.0"
edition = "2021"
publish = false

[dependencies]
clap = "*"
colored = "*"
fs_extra = "*"
pretty-bytes = "*"
