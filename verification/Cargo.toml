[package]
name = "turbo-debug-console"
version = "0.1.0"
edition = "2021"
publish = false

[dependencies]
serde_json = { version = "=1.0.154", features = ["preserve_order"] }
trace-stream = "=0.1.9"
turbo-vision = "~2.1"
unicode-width = "=0.2.3"
