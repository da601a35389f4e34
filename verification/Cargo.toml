[package]
name = "twitchparser"
version = "0.1.0"
edition = "2021"
publish = false

[dependencies]
dotenv = "*"
env_logger = "*"
failure = "*"
tungstenite = "*"
url = "*"
