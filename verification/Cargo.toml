[package]
name = "roaringrange"
version = "0.1.0"
edition = "2021"
publish = false

[dependencies]
roaring = "*"
fst = "*"
rust-stemmers = "*"
futures = "*"
js-sys = "*"
wasm-bindgen = "*"
wasm-bindgen-futures = "*"
web-sys = { version = "*", features = ["Headers", "Request", "RequestInit", "RequestMode", "Response", "Window", "WorkerGlobalScope"] }
