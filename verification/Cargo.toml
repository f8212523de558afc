[package]
name = "staff"
version = "0.1.0"
edition = "2021"
publish = false

[dependencies]
clap = { version = "4", features = ["derive"] }
glam = "0.29"
image = { version = "0.24", default-features = false, features = ["png"] }
palette = "0.7"
quick-xml = "0.31"
serde = { version = "1", features = ["derive"] }
serde_json = "1"
