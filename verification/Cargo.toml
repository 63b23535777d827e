[package]
name = "artha_core"
version = "0.1.0"
edition = "2021"
publish = false

[dependencies]
anyhow = "1"
csv = "1"
dirs = "*"
hex = "0.4"
log = "0.4"
parking_lot = "0.12"
r2d2 = "0.8"
r2d2_sqlite = { version = "*", features = ["bundled"] }
rand = "0.8"
rusqlite = { version = "*", features = ["bundled"] }
security-framework = "*"
serde = { version = "1", features = ["derive"] }
serde_json = "1"
time = { version = "0.3", features = ["formatting", "parsing"] }
tokio = { version = "1", features = ["rt-multi-thread"] }
uuid = { version = "1", features = ["v4"] }
