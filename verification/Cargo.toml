[package]
name = "tangle"
version = "0.1.0"
edition = "2021"
publish = false

[dependencies]
pulldown-cmark = "*"
glob = "*"
log = "*"
pretty_env_logger = "*"
