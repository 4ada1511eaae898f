[package]
name = "dupescan"
version = "0.1.0"
edition = "2021"
publish = false

[dependencies]
anyhow = "*"
bytesize = "*"
chrono = "*"
dashmap = "*"
indicatif = "*"
pathdiff = "*"
rand = "*"
rayon = "*"
threadpool = "*"
