[package]
name = "api_client"
version = "0.1.0"
edition = "2021"
publish = false

[dependencies]
dirs = "*"
git2 = "*"
reqwest = { version = "*", default-features = false, features = ["blocking"] }
