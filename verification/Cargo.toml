[package]
name = "upwd"
version = "0.1.0"
edition = "2021"
publish = false

[dependencies]
clap = { version = "*", features = ["derive"] }
confy = "*"
exitcode = "*"
indexmap = "*"
rand = "*"
serde = { version = "*", features = ["derive"] }
