[package]
name = "spelling_bee"
version = "0.1.0"
edition = "2021"
publish = false

[dependencies]
unidecode = "*"
rand = "*"
rand_chacha = "*"
clap = { version = "*", features = ["derive"] }
csv = "*"
serde = { version = "*", features = ["derive"] }
serde_json = "*"
thiserror = "*"
inquire = "*"
