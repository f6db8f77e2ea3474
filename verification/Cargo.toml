[package]
name = "nonogram_solver"
version = "0.1.0"
edition = "2021"
publish = false

[dependencies]
anyhow = "1"
clap = { version = "4", features = ["derive"] }
dirs = "*"
image = { version = "*", default-features = false, features = ["png", "jpeg"] }
imageproc = { version = "*", default-features = false }
rayon = "1"
regex = "1"
serde = { version = "1", features = ["derive"] }
serde_json = "1"
