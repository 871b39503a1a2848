[package]
name = "anime_rec"
version = "0.1.0"
edition = "2021"
publish = false

[dependencies]
rand = "0.8"
html-escape = "*"
csv = "*"
serde = { version = "*", features = ["derive"] }
petgraph = "*"
strsim = "*"
