[package]
name = "wfst"
version = "0.1.0"
edition = "2021"
publish = false

[dependencies]
anyhow = "1"
serde = { version = "1", features = ["derive"] }
nom = "*"
ordered-float = "*"
