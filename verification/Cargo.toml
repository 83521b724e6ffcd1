[package]
name = "poschain"
version = "0.1.0"
edition = "2021"
publish = false

[dependencies]
sha2 = "*"
hex = "*"
rand = "*"
chrono = "*"
rusqlite = { version = "*", features = ["bundled"] }
dotenv = "*"
