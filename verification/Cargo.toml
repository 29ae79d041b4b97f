[package]
name = "skill_workspace"
version = "0.1.0"
edition = "2021"
publish = false

[dependencies]
serde = { version = "1", features = ["derive"] }
serde_json = "1"
serde_yaml = "0.9"
rusqlite = { version = "*", features = ["bundled"] }
thiserror = "*"
trash = "*"
zip = { version = "*", default-features = false, features = ["deflate"] }
