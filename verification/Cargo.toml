[package]
name = "vlist"
version = "0.1.0"
edition = "2021"
publish = false

[dependencies]
futures = "=0.3.34"
web-sys = { version = "=0.3.106", features = ["Document", "Element", "Node", "Text", "Window"] }
