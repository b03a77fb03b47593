[package]
name = "oeuvre"
version = "0.1.0"
edition = "2021"
publish = false

[dependencies]
anyhow = "=1.0.104"
glob = "*"
log = "=0.4.34"
path-clean = "=1.0.1"
serde = "=1.0.229"
serde_derive = "=1.0.229"
simple_logger = "=5.2.0"
toml = "=1.1.6"
