[package]
name = "haptic_sync"
version = "0.1.0"
edition = "2021"
publish = false

[dependencies]
actix = "*"
actix-files = "*"
actix-web = "*"
actix-web-actors = "*"
atomic_float = "*"
chrono = "*"
dotenv = "*"
env_logger = "*"
futures = "*"
log = "*"
once_cell = "*"
rusqlite = { version = "*", features = ["bundled"] }
serde = { version = "*", features = ["derive"] }
serde_json = "*"
tokio = { version = "*", features = ["macros", "rt-multi-thread", "time", "fs", "sync"] }
