[package]
name = "mug_bancha"
version = "0.1.0"
edition = "2021"
publish = false

[dependencies]
rand = "0.8"
http = "0.2"
hyper = { version = "0.14", features = ["server", "http1", "tcp"] }
tokio = { version = "1", features = ["rt-multi-thread", "net", "macros", "sync"] }

[dev-dependencies]
serde_json = "1"
