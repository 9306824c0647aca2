[package]
name = "quicklines"
version = "0.1.0"
edition = "2021"
publish = false

[dependencies]
anyhow = "1"
clap = { version = "4", features = ["derive"] }
fastrand = "2"
memchr = "2"
memmap2 = "0.9"
