[package]
name = "mopidy-sound-visualizer"
version = "0.1.0"
edition = "2021"
publish = false

[dependencies]
anyhow = "1"
axum = "0.8"
build-time = "0.1"
futures-util = "0.3"
gstreamer = "0.23"
lerp = "0.5"
serde = { version = "1", features = ["derive"] }
serde_json = "1"
sys-info = "0.9"
tokio = { version = "1", features = ["full"] }
tokio-stream = { version = "0.1", features = ["sync"] }
tokio-util = "0.7"
tower-http = { version = "0.6", features = ["cors"] }
tracing = "0.1"
tracing-appender = "0.2"
tracing-subscriber = { version = "0.3", features = ["env-filter"] }
valuable = { version = "0.1", features = ["derive"] }
