[package]
name = "asciibear"
version = "0.1.0"
edition = "2021"
publish = false

[dependencies]
color-name = "*"
axum = { version = "0.6", features = ["ws"] }
tokio = { version = "1", features = ["full"] }
tower-http = { version = "0.4", features = ["fs"] }
futures = "0.3"
serde = { version = "1", features = ["derive"] }
serde_json = "1"
twitch-irc = { version = "5", default-features = false, features = ["transport-tcp", "transport-tcp-rustls-webpki-roots"] }
cpal = "0.15"
device_query = "1"

[dev-dependencies]
nom = "7"
