[package]
name = "blue_track"
version = "0.1.0"
edition = "2021"
publish = false

[dependencies]
serde = { version = "1", features = ["derive"] }
serde_json = "1"
bitcode = { version = "0.6", features = ["serde"] }
chrono = { version = "0.4", features = ["serde"] }
nalgebra = { version = "*", features = ["serde-serialize"] }
lstsq = "*"
thiserror = "*"
tokio = { version = "1", features = ["fs", "sync", "rt-multi-thread", "macros"] }
log = "0.4"
env_logger = "*"
tracing = "0.1"
heapless = "0.8"
futures = "0.3"
actix-web = { version = "4", default-features = false, features = ["macros"] }
actix-files = "*"
