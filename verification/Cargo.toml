[package]
name = "toptags"
version = "0.1.0"
edition = "2021"
publish = false

[dependencies]
urlencoding = "2"
anyhow = "1"
dotenv = "0.15"
reqwest = { version = "0.12", default-features = false, features = ["json"] }
serde = { version = "1", features = ["derive"] }
serde_json = "1"
tokio = { version = "1", features = ["rt-multi-thread", "macros", "time"] }
