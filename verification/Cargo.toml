[package]
name = "webrtc"
version = "0.1.0"
edition = "2021"
publish = false

[dependencies]
actix = "0.10"
actix-web = { version = "3", default-features = false }
actix-web-actors = "3"
awc = { version = "2", default-features = false }
clap = "2"
futures = "0.3"
gstreamer = "0.16"
gstreamer-sdp = "0.16"
gstreamer-webrtc = "0.16"
rand = "0.7"
serde = { version = "1", features = ["derive"] }
serde_json = "1"
tokio = { version = "0.2", features = ["full"] }
tokio-tungstenite = { version = "0.11", default-features = false }
tungstenite = { version = "0.11", default-features = false }
