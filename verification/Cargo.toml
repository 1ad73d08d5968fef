[package]
name = "virtual_tree"
version = "0.1.0"
edition = "2021"
publish = false

[dependencies]
futures = "0.3"
fxhash = "0.2"
indexmap = "2"
js-sys = "0.3"
tracing = "0.1"
wasm-bindgen = "0.2"
wasm-bindgen-futures = "0.4"
web-sys = { version = "0.3", features = ["Document", "Element", "Event", "EventTarget", "HtmlElement", "MouseEvent", "Node", "Text", "Window", "console"] }
