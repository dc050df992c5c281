[package]
name = "blog_server"
version = "0.1.0"
edition = "2021"
publish = false

[dependencies]
axum = "0.7"
tokio = { version = "1", features = ["full"] }
rusqlite = { version = "*", features = ["bundled"] }
serde_json = "1"
pulldown-cmark = "*"
libc = "0.2"
sha2 = "0.10"
