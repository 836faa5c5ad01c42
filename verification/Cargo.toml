[package]
name = "git-hud"
version = "0.1.0"
edition = "2021"
publish = false

[dependencies]
serde = { version = "=1.0.229", features = ["derive"] }
serde_json = "=1.0.154"
git2 = { version = "=0.21.0", default-features = false }
rusqlite = { version = "=0.40.2", features = ["bundled"] }
rusqlite_migration = "=2.6.0"
thiserror = "=2.0.21"
notify = "=8.2.1"
tokio = { version = "=1.54.1", features = ["time", "rt"] }
