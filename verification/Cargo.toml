[package]
name = "nonsteam"
version = "0.1.0"
edition = "2021"
publish = false

[dependencies]
clap = { version = "4", features = ["derive"] }
steam_shortcuts_util = "1"
steamlocate = "1"
