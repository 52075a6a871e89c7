[package]
name = "lw-core"
version = "0.1.0"
edition = "2021"
publish = false

[dependencies]
anyhow = "1"
comrak = "*"
gray_matter = "*"
rmcp = { version = "*", features = ["server", "macros", "transport-io"] }
serde = { version = "1", features = ["derive"] }
serde_json = "1"
serde_yml = "*"
tantivy = "*"
tantivy-jieba = "*"
tempfile = "3"
thiserror = "2"
time = "0.3"
toml = "*"
tracing = "0.1"
unicode-normalization = "0.1"
