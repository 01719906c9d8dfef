[package]
name = "clg"
version = "0.1.0"
edition = "2021"
publish = false

[dependencies]
indexmap = "=2.14.2"
log = "=0.4.34"
env_logger = "=0.11.11"
ishell = { version = "=0.3.1", features = ["logging"] }
clap = { version = "=4.6.7", features = ["derive"] }
