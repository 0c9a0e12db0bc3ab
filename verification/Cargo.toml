[package]
name = "filesync"
version = "0.1.0"
edition = "2021"
publish = false

[dependencies]
blake3 = "1"
clap = { version = "4", features = ["derive"] }
indicatif = "*"
libc = "0.2"
rayon = "1"
walkdir = "2"
