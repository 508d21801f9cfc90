[package]
name = "player"
version = "0.1.0"
edition = "2021"
publish = false

[dependencies]
itertools = "*"
url = "*"
serde = { version = "*", features = ["derive"] }
axum = "*"
tokio = { version = "*", features = ["full"] }
clap = { version = "*", features = ["derive"] }
log = "*"
simple_logger = "*"
walkdir = "*"
tower = "*"
tower-http = { version = "*", features = ["fs"] }
http = "*"
