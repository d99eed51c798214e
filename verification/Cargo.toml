[package]
name = "ls"
version = "0.1.0"
edition = "2021"
publish = false

[dependencies]
chrono = "0.4"
clap = "4"
nix = { version = "0.29", features = ["user"] }
terminal_size = "0.4"
