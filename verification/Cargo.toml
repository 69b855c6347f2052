[package]
name = "ric3"
version = "0.1.0"
edition = "2021"
publish = false

[dependencies]
aiger = "*"
clap = { version = "4", features = ["derive"] }
ctrlc = "3"
serde = { version = "1", features = ["derive"] }
serde_json = "1"
