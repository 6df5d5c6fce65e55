[package]
name = "upnp_serve"
version = "0.1.0"
edition = "2021"
publish = false

[dependencies]
anyhow = "*"
bytes = "*"
futures = "*"
libc = "*"
network-interface = "*"
socket2 = "*"
tokio = { version = "*", features = ["net", "time", "sync", "rt", "macros"] }
tokio-util = "*"
tracing = "*"
tracing-subscriber = "*"
url = "*"
