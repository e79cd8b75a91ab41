[package]
name = "crawlrs"
version = "0.1.0"
edition = "2021"
publish = false

[dependencies]
url = "*"
select = "*"
chrono = "*"
reqwest = { version = "*", default-features = false, features = ["blocking"] }
serde = { version = "*", features = ["derive"] }
serde_json = "*"
structopt = "*"
log = "*"
env_logger = "*"
