[package]
name = "dir_index"
version = "0.1.0"
edition = "2021"
publish = false

[dependencies]
anyhow = "1"
argh = "*"
humansize = "2"
maud = "*"
time = { version = "*", features = ["formatting", "macros"] }
