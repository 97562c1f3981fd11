[package]
name = "person_store"
version = "0.1.0"
edition = "2021"
publish = false

[dependencies]
actix-web = "=4.18.1"
leptos = { version = "=0.4.10", features = ["ssr"] }
leptos_actix = "=0.4.10"
leptos_router = { version = "=0.4.10", features = ["ssr"] }
log = "=0.4.34"
ron = "=0.8.1"
serde = { version = "=1.0.229", features = ["derive"] }
tracing = "=0.1.44"
