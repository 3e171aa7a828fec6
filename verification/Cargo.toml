[package]
name = "better_remove"
version = "0.1.0"
edition = "2021"
publish = false

[dependencies]
clap = { version = "*", features = ["derive"] }
clap_complete = "*"
dialoguer = "*"
homedir = "*"
skim = "*"
toml = "*"
