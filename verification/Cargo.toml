[package]
name = "archive_proxy"
version = "0.1.0"
edition = "2021"
publish = false

[dependencies]
mime_guess = "2"
twox-hash = "1"
rand = "0.8"
axum = "0.5"
tokio = { version = "1", features = ["full"] }
reqwest = { version = "0.11", default-features = false, features = ["stream"] }
futures-util = "0.3"
bytes = "1"
clap = { version = "4", features = ["derive"] }
tracing = "0.1"
tracing-subscriber = "0.3"
zip = "0.6"
piz = "*"
memmap = "0.7"
fs4 = "0.8"
