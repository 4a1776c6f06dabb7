[package]
name = "netcat"
version = "0.1.0"
edition = "2021"
publish = false

[dependencies]
hdrhistogram = { version = "7", default-features = false }
rand = "0.7"
serde = { version = "1", features = ["derive"] }
serde_json = "1"
bincode = "1"
clap = "2.33"
console = "0.11"
dialoguer = "0.6"
indicatif = "0.15"
ibverbs = "*"
