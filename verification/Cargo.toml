[package]
name = "obiwan"
version = "0.1.0"
edition = "2021"
publish = false

[dependencies]
anyhow = "*"
clap = { version = "*", features = ["derive"] }
log = "*"
nix = { version = "*", features = ["user", "fs"] }
simplelog = "*"
tokio = { version = "*", features = ["rt", "net", "time", "macros"] }
