[package]
name = "boxrun"
version = "0.1.0"
edition = "2021"
publish = false

[dependencies]
chrono = "0.4"
nanoid = "0.4"
num_cpus = "1"
serde = { version = "1", features = ["derive"] }
serde_json = "1"
tokio = { version = "1", features = ["full"] }
axum = { version = "0.8", features = ["ws", "multipart"] }
rusqlite = { version = "0.32", features = ["bundled"] }
clap = { version = "4", features = ["derive"] }
clap_complete = "4"
reqwest = { version = "0.12", default-features = false, features = ["json", "stream", "multipart"] }
futures = "0.3"
async-stream = "0.3"
tokio-tungstenite = "0.26"
tracing = "0.1"
tracing-subscriber = { version = "0.3", features = ["env-filter"] }
libc = "0.2"
tempfile = "3"
eventsource-stream = "0.2"
