[package]
name = "lollipop"
version = "0.1.0"
edition = "2021"
publish = false

[dependencies]
js-sys = "0.3"
wasm-bindgen = "0.2"
wasm-rs-async-executor = "*"
web-sys = { version = "0.3", features = ["CharacterData", "Document", "Element", "Event", "EventTarget", "HtmlElement", "Node", "Text", "Window"] }
