[package]
name = "luat"
version = "0.1.0"
edition = "2021"
publish = false

[dependencies]
regex = "1"
matchit = "0.8"
lru = "0.12"
form_urlencoded = "1"
serde = { version = "1", features = ["derive"] }
serde_json = "1"
thiserror = "2"
mlua = { version = "0.10", features = ["lua54", "vendored", "serialize"] }
