[package]
name = "cmt"
version = "0.1.0"
edition = "2021"
publish = false

[dependencies]
anyhow = "=1.0.104"
bincode = "=2.0.1"
clap = { version = "=4.6.7", features = ["derive"] }
colored = "=3.1.1"
ctrlc = "=3.5.2"
regex = "=1.13.1"
serde_json = "=1.0.151"
