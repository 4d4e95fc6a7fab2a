[package]
name = "conf_reader"
version = "0.1.0"
edition = "2021"
publish = false

[dependencies]
clap = { version = "4", features = ["derive"] }
serde_json = "1"
thiserror = "1"
