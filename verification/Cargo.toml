[package]
name = "cargo-chlog"
version = "0.1.0"
edition = "2021"
publish = false

[dependencies]
annotate-snippets = "0.12"
clap = { version = "4", features = ["derive"] }
git2 = "*"
regex = "1"
serde = { version = "1", features = ["derive"] }
toml = "*"
