[package]
name = "nunitius"
version = "0.1.0"
edition = "2021"
publish = false

[dependencies]
anyhow = "1"
crossterm = "*"
flume = "*"
jsonl = "*"
serde = { version = "1", features = ["derive"] }
