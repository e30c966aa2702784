[package]
name = "mmap_btree"
version = "0.1.0"
edition = "2021"
publish = false

[dependencies]
mmap-rs = "*"
rand = "*"
