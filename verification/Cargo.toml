[package]
name = "gleam_finder"
version = "0.1.0"
edition = "2021"
publish = false

[dependencies]
string-tools = "*"
serde_json = "1.0"
serde = { version = "1.0", features = ["derive"] }
minreq = { version = "2", features = ["https"] }
