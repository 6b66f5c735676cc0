[package]
name = "bbqueue"
version = "0.6.0"
edition = "2021"
publish = false

[dependencies]
critical-section = { version = "1", features = ["std"] }
maitake-sync = "0.2"
