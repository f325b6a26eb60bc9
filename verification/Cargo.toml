[package]
name = "aries"
version = "0.1.0"
edition = "2021"
publish = false

[dependencies]
malachite = "0.4"
rand = "0.8"
structopt = "0.3"
env_logger = "0.9"
log = "0.4"
anyhow = "1"
