[package]
name = "quon_na"
version = "0.1.0"
edition = "2021"
publish = false

[dependencies]
z3 = "0.12"
serde = { version = "1", features = ["derive"] }
serde_json = "1"
thiserror = "2"
