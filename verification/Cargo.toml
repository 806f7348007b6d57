[package]
name = "product"
version = "0.1.0"
edition = "2021"
publish = false

[dependencies]
serde_json = "*"
tokio = { version = "*", features = ["rt-multi-thread", "macros", "net", "io-util", "time", "sync"] }
tokio-serial = "*"
structopt = "*"
log = "*"
env_logger = "*"
chrono = "*"
is-terminal = "*"
anyhow_ext = "*"
