[package]
name = "maidata"
version = "0.1.0"
edition = "2021"
publish = false

[dependencies]
nom = "7"
serde = { version = "1", features = ["derive"] }
serde_json = "1"
ndarray = "0.15"
ndarray-npy = "0.8"
walkdir = "2"
ureq = { version = "2", features = ["json"] }
