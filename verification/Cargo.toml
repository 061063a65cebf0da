[package]
name = "todotxt"
version = "0.1.0"
edition = "2021"
publish = false

[dependencies]
todo-txt = "*"
serde = { version = "1", features = ["derive"] }
leptos = { version = "*", features = ["csr"] }
wasm-bindgen = "0.2"
wasm-bindgen-futures = "0.4"
serde-wasm-bindgen = "*"
