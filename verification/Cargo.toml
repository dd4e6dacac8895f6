[package]
name = "wiggles"
version = "0.1.0"
edition = "2021"
publish = false

[dependencies]
chrono = "0.4"
smallvec = "1"
serde = "1"
serde_derive = "1"
serde_json = "1"
bincode = "1.3"
log = "0.4"
simple_logger = "1.16"
ordermap = "0.3"
websocket = { version = "0.27", default-features = false, features = ["sync"] }
rand = "0.3"
lazy_static = "1"
rust_dmx = "*"
