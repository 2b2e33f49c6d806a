[package]
name = "sharkbench"
version = "0.1.0"
edition = "2021"
publish = false

[dependencies]
rand = "*"
regex = "*"
serde_json = "*"
indexmap = "*"
serde = { version = "*", features = ["derive"] }
serde_yaml = "*"
clap = { version = "*", features = ["derive"] }
tokio = { version = "*", features = ["rt-multi-thread", "time"] }
reqwest = { version = "*", default-features = false, features = ["blocking"] }
