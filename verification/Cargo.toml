[package]
name = "beacon_core"
version = "0.1.0"
edition = "2021"
publish = false

[dependencies]
uuid = { version = "1", features = ["v4"] }
log = "0.4"
clap = { version = "4", features = ["derive"] }
dirs = "5"
url = "2"
