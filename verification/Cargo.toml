[package]
name = "flatten_marker_output"
version = "0.1.0"
edition = "2021"
publish = false

[dependencies]
regex = "1"
serde = { version = "1", features = ["derive"] }
serde_json = "1"
glob = "0.3"
clap = { version = "4", features = ["derive"] }
