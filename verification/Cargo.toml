[package]
name = "verethiel"
version = "0.1.0"
edition = "2021"
publish = false

[dependencies]
clap = { version = "4", features = ["derive"] }
serde = "1"
serde_json = { version = "1", features = ["preserve_order"] }
