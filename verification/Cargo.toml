[package]
name = "traffic_fanout"
version = "0.1.0"
edition = "2021"
publish = false

[dependencies]
anyhow = "*"
anstyle = "*"
chrono = "*"
env_logger = "*"
log = "*"
nix = { version = "=0.29.0", features = ["event"] }
quick-xml = "*"
socket2 = { version = "*", features = ["all"] }
ureq = "*"
