[package]
name = "miniredis"
version = "0.1.0"
edition = "2021"
publish = false

[dependencies]
hex = "*"
sha2 = "*"
rand = "*"
chrono = "*"
anyhow = "*"
bytes = "*"
tokio = { version = "*", features = ["net", "sync", "time", "io-util", "rt-multi-thread", "macros", "fs"] }
clap = { version = "*", features = ["derive"] }
