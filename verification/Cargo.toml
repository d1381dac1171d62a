[package]
name = "cola"
version = "0.1.0"
edition = "2021"
publish = false

[dependencies]
serde = { version = "1", features = ["derive"] }
sha2 = "0.10"
uuid = { version = "1", features = ["v4"] }
