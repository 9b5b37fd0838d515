[package]
name = "vincenty"
version = "0.1.0"
edition = "2021"
publish = false

[dependencies]
anyhow = "1"
gloo-utils = "0.1"
serde = { version = "1", features = ["derive"] }
wasm-bindgen = { version = "0.2", features = ["serde-serialize"] }
wasm-bindgen-futures = "0.4"
web-sys = { version = "0.3", features = ["Event", "EventTarget", "HtmlInputElement", "InputEvent", "Request", "RequestInit", "RequestMode", "Response", "Window", "console"] }
yew = "0.19"
