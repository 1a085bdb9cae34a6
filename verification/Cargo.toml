[package]
name = "lintmatter"
version = "0.1.0"
edition = "2021"
publish = false

[dependencies]
saphyr = "*"
glob = "0.3"
serde = { version = "1", features = ["derive"] }
serde_json = "1"
axum = "*"
tokio = { version = "1", features = ["macros", "rt-multi-thread", "net", "process", "time"] }
tempfile = "3"
