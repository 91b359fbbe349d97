[package]
name = "open_project"
version = "0.1.0"
edition = "2021"
publish = false

[dependencies]
glob = "0.3"
clap = { version = "4", features = ["derive"] }
color-eyre = "0.6"
dialoguer = { version = "0.11", features = ["fuzzy-select"] }
directories = "5"
serde = { version = "1", features = ["derive"] }
serde_json = "1"
shellexpand = "3"

[dev-dependencies]
winnow = "0.6"
