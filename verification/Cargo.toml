[package]
name = "kodachi"
version = "0.1.0"
edition = "2021"
publish = false

[dependencies]
regex = "1"
ritelinked = "0.3"
rand = "0.8"
serde = { version = "1", features = ["derive"] }
serde_json = "1"
clap = { version = "4", features = ["derive"] }
tokio = { version = "1", features = ["full"] }
crossterm = { version = "0.27", features = ["event-stream"] }
futures = "0.3"
async-trait = "0.1"
bytes = "1"
telnet = "0.2"
lazy_static = "1"
log = "0.4"
