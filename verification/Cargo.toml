[package]
name = "chatgpt_cli"
version = "0.1.0"
edition = "2021"
publish = false

[dependencies]
chatgpt_rs = { version = "*", features = ["streams"] }
dirs = "*"
futures = "*"
futures-util = "*"
shellexpand = "*"
tokio = { version = "*", features = ["full"] }
