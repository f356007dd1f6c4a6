[package]
name = "nhl_notifier"
version = "0.1.0"
edition = "2021"
publish = false

[dependencies]
async-std = "*"
chrono = "*"
config = "*"
env_logger = "*"
failure = "*"
futures = "*"
http = "*"
http-client = { version = "*", default-features = false, features = ["h1_client"] }
log = "*"
serde = { version = "*", features = ["derive"] }
serde_json = "*"
serde_urlencoded = "*"
structopt = "*"
