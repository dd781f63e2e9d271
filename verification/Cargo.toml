[package]
name = "dispatch_engine"
version = "0.1.0"
edition = "2021"
publish = false

[dependencies]
hyper = "1"
clap = { version = "4", features = ["cargo"] }
