[package]
name = "app_search"
version = "0.1.0"
edition = "2021"
publish = false

[dependencies]
anyhow = "*"
plist = "*"
serde = { version = "*", features = ["derive"] }
