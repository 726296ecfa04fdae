[package]
name = "belmarsh"
version = "0.1.0"
edition = "2021"
publish = false

[dependencies]
clap = { version = "4", features = ["derive"] }
once_cell = "1"
rayon = "1"
regex = "1"
walkdir = "2"
