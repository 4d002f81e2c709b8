[package]
name = "willow"
version = "0.1.0"
edition = "2021"
publish = false

[dependencies]
itertools = "*"
wasm-bindgen = "*"
js-sys = "*"
web-sys = { version = "*", features = ["Window", "Document", "Element", "HtmlElement", "Node", "NodeList", "Text", "Event", "EventTarget", "KeyboardEvent", "HtmlInputElement", "CssStyleDeclaration", "console"] }
