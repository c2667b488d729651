[package]
name = "djust"
version = "0.1.0"
edition = "2021"
publish = false

[dependencies]
html5ever = "0.27"
markup5ever_rcdom = "0.3"
serde = { version = "1", features = ["derive"] }
serde_json = "1"
regex = "1"
once_cell = "1"
chrono = "0.4"
