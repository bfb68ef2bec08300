[package]
name = "moe"
version = "0.1.0"
edition = "2021"
publish = false

[dependencies]
libc = "0.2"
memmap2 = "0.9"
rayon = "1"
serde_json = "1"
ureq = "*"
