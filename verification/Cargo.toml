[package]
name = "bake"
version = "0.1.0"
edition = "2021"

[dependencies]
clap = { version = "4", features = ["derive"] }
colored = "2"
duct = "0.13"
loading = "*"
reqwest = "0.12"
tokio = { version = "1", features = ["full"] }
url = "2"
