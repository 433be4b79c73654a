[package]
name = "dom"
version = "0.1.0"
edition = "2021"
publish = false

[dependencies]
anyhow = "=1.0.104"
bincode = "=1.3.3"
boa_engine = "=0.22.0"
boa_gc = "=0.22.0"
fern = "=0.6.2"
js-sys = "=0.3.106"
log = "=0.4.34"
once_cell = "=1.21.4"
serde = { version = "=1.0.229", features = ["derive"] }
wasm-bindgen = "=0.2.129"
wasm-bindgen-futures = "=0.4.79"
wasm-logger = "=0.2.0"
web-sys = { version = "=0.3.106", features = ["CanvasRenderingContext2d", "Document", "Element", "HtmlCanvasElement", "Request", "RequestInit", "Response", "TextMetrics", "Window"] }
