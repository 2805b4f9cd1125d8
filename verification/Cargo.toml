[package]
name = "werewolf_router"
version = "0.1.0"
edition = "2021"
publish = false

[dependencies]
base64 = "=0.23.1"
serde = { version = "*", features = ["derive"] }
serde_json = "*"
actix = "*"
actix-web = "*"
actix-web-actors = "*"
actix-files = "*"
clap = { version = "*", features = ["derive"] }
thiserror = "*"
futures = "*"
