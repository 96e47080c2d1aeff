[package]
name = "keyed_map"
version = "0.1.0"
edition = "2021"
publish = false

[dependencies]
leptos_reactive = { version = "=0.4.10", features = ["csr"] }
