[package]
name = "rust_indexed"
version = "0.1.0"
edition = "2021"
publish = false

[dependencies]
tantivy = "=0.21.1"
# tantivy 0.21 compresses with zstd-safe 6, which does not build against a later zstd-sys.
zstd-sys = "=2.0.9"
html-escape = "=0.2.15"
serde = { version = "=1.0.229", features = ["derive"] }
axum = "=0.7.9"
tokio = { version = "=1.54.1", features = ["full"] }
tower-http = { version = "=0.5.2", features = ["fs"] }
toml = "=0.8.23"

[dev-dependencies]
tempfile = "=3.27.0"
regex = "=1.13.1"
