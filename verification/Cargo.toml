[package]
name = "mablocks"
version = "0.1.0"
edition = "2021"
publish = false

[dependencies]
uuid = { version = "1", features = ["v4"] }
serde = { version = "1", features = ["derive"] }
serde_json = "1"
directories = "5"
image = { version = "0.25", default-features = false, features = ["png", "jpeg", "gif", "webp"] }
