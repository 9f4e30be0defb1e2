[package]
name = "jim"
version = "0.1.0"
edition = "2021"
publish = false

[dependencies]
ropey = { version = "*", default-features = false }
memmap2 = "*"
anyhow = "*"
crossbeam = "*"
reflink-copy = "*"
