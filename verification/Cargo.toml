[package]
name = "leptos_dom"
version = "0.1.0"
edition = "2021"
publish = false

[dependencies]
gloo = "*"
leptos_reactive = "0.2"
wasm-bindgen = "*"
web-sys = { version = "0.3", features = ["Comment", "Document", "DocumentFragment", "Element", "Node", "Text", "Window"] }
