[package]
name = "tagwiki"
version = "0.1.0"
edition = "2021"
publish = false

[dependencies]
anyhow = "*"
blake2 = "=0.11.0"
chrono = "=0.4.45"
digest = "=0.11.3"
env_logger = "*"
hex = "=0.4.3"
horrorshow = "*"
log = "*"
pulldown-cmark = "=0.13.4"
rand = "=0.10.3"
serde = { version = "*", features = ["derive"] }
serde_derive = "*"
structopt = "*"
tokio = { version = "*", features = ["full"] }
walkdir = "*"
warp = { version = "*", features = ["server"] }
