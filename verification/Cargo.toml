[package]
name = "loom"
version = "0.1.0"
edition = "2021"
publish = false

[dependencies]
unicode_categories = "=0.1.1"
unicode-brackets = "=0.1.1"
marksman_escape = "=0.1.2"
indexmap = "2"
serde = { version = "=1.0.229", features = ["derive"] }
serde_json = "=1.0.154"
