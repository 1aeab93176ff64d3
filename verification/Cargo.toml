[package]
name = "cpiolib"
version = "0.1.0"
edition = "2021"
publish = false

[dependencies]
binrw = "*"
rustix = { version = "*", features = ["fs"] }
clap = { version = "*", features = ["derive"] }
camino = "*"
anyhow = "*"
