[package]
name = "peg_pack"
version = "0.1.0"
edition = "2021"
publish = false

[dependencies]
seahash = "4"
regex = "1"
serde = { version = "1", features = ["derive"] }
serde_json = "1"
clap = { version = "3", features = ["derive"] }
atty = "0.2"
termcolor = "1"
