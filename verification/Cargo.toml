[package]
name = "pdfmuse_core"
version = "0.1.0"
edition = "2021"
publish = false

[dependencies]
lopdf = { version = "=0.46.0", default-features = false }
quick-xml = "=0.37.5"
zip = { version = "=9.2.2", default-features = false, features = ["deflate"] }
serde = { version = "=1.0.229", features = ["derive"] }
serde_json = "=1.0.154"
thiserror = "=2.0.21"
