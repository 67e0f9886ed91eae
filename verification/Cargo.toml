[package]
name = "gm_core"
version = "0.1.0"
edition = "2021"
publish = false

[dependencies]
sha2 = "0.10"
hex = "0.4"
serde = { version = "1", features = ["derive"] }
serde_json = "1"
rusqlite = { version = "0.32", features = ["bundled"] }
time = { version = "0.3", features = ["formatting"] }
ulid = "1"
thiserror = "1"
anyhow = "1"
clap = { version = "4", features = ["derive", "env"] }
tiny_http = "0.12"

[dev-dependencies]
tempfile = "3"
