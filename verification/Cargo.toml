[package]
name = "ci_jobqueue"
version = "0.1.0"
edition = "2021"
publish = false

[dependencies]
anyhow = "*"
file-lock = "*"
git2 = "*"
serde = "*"
serde_derive = "*"
toml = "*"
