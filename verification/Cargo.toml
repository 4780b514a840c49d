[package]
name = "photosync"
version = "0.1.0"
edition = "2021"
publish = false

[dependencies]
clap = { version = "4", features = ["derive"] }
eyre = "0.6"
rayon = "1"
rusqlite = "*"
sha2 = "0.10"
tempfile = "3"
walkdir = "2"
