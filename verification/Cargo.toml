[package]
name = "chat_searcher"
version = "0.1.0"
edition = "2021"
publish = false

[dependencies]
anyhow = "1"
chrono = "0.4"
flate2 = "1"
leptos = { version = "*", features = ["csr"] }
leptos_meta = "*"
leptos_router = "*"
rayon = "1"
serde = { version = "1", features = ["derive"] }
serde_json = "1"
wasm-bindgen = "0.2"
wasm-bindgen-futures = "0.4"
web-sys = { version = "0.3", features = ["Blob", "File", "FileList", "HtmlInputElement", "MouseEvent"] }
