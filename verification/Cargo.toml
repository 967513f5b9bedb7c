[package]
name = "pool_bridge"
version = "0.1.0"
edition = "2021"
publish = false

[dependencies]
deadpool = "=0.13.1"
deadpool-postgres = "=0.14.2"
tokio-postgres = "=0.7.18"
tokio = { version = "=1.53.2", features = ["rt", "macros"] }
dotenv = "=0.15.0"
serde = { version = "=1.0.229", features = ["derive"] }
serde_json = "=1.0.151"
wasm-bindgen = "=0.2.129"
wasm-bindgen-futures = "=0.4.79"
web-sys = { version = "=0.3.106", features = ["Window", "Document", "Element", "HtmlElement", "HtmlInputElement", "Headers", "Request", "RequestInit", "Response", "console"] }
