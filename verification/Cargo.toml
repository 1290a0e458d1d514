[package]
name = "yuairender"
version = "0.1.0"
edition = "2021"
publish = false

[dependencies]
base64 = "=0.13.1"
tokio = { version = "=1.53.2", features = ["macros", "rt-multi-thread"] }

[dev-dependencies]
serde_json = "1"
bincode = "1"
