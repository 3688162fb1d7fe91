[package]
name = "kmeans"
version = "0.1.0"
edition = "2021"
publish = false

[dependencies]
rayon = "*"
rand = "0.8"
clap = { version = "4", features = ["derive"] }
csv = "1"
itertools = "*"
tokio = { version = "1", features = ["rt-multi-thread", "sync"] }
