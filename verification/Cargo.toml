[package]
name = "brunch"
version = "0.1.0"
edition = "2021"
publish = false

[dependencies]
unicode-width = "*"
dactyl = "*"
num-traits = "*"
serde = { version = "*", features = ["derive"] }
serde_json = "*"
