[package]
name = "paging"
version = "0.1.0"
edition = "2021"
publish = false

[dependencies]
multiboot2 = { version = "*", default-features = false }
x86_64 = { version = "*", default-features = false, features = ["instructions"] }
